use vstd::prelude::*;
use vstd::utf8::encode_utf8;
use crate::text::{
    lemma_digits_order, lemma_digits_value_bound, lemma_padded_digits, lemma_text_lt_concat,
    text_lt, digits_value, all_digits, chars_of, contains_char, decimal_digits, is_digit, lemma_decimal_digits,
    lemma_parse_digits, lemma_split_plain_tail, lemma_split_sep_tail, lemma_zero_padded,
    parse_decimal, parse_unsigned, push_zero_padded, split_by, split_chars, string_from_chars,
    utf8_len_is, zero_padded,
};

verus! {

/// Refusal of a date whose UTF-8 length is not that of `YYYY-MM-DD HH:MM`.
pub const DATE_LENGTH_ERROR: &'static str = "Date must be in format YYYY-MM-DD HH:MM";
/// Refusal of a date that does not have five fields.
pub const DATE_SHAPE_ERROR: &'static str = "Invalid date format. Use YYYY-MM-DD HH:MM";
/// Refusal of a date with a field that is not a number.
pub const DATE_DIGIT_ERROR: &'static str = "Date contains non-digit characters";
/// Refusal of a year beyond `u16`.
pub const YEAR_RANGE_ERROR: &'static str = "Year is out of valid range";
/// Refusal of a month, day, hour or minute out of its range.
pub const DATE_RANGE_ERROR: &'static str = "Date values are out of valid range";

/// A calendar date with a time of day, to the minute.
#[derive(Debug, Clone, Copy, PartialEq, Eq, Structural, PartialOrd, Ord)]
pub struct SimpleDate {
    year: u16,
    month: u8,
    day: u8,
    hour: u8,
    minute: u8,
}

impl View for SimpleDate {
    /// `(year, month, day, hour, minute)`.
    type V = (u16, u8, u8, u8, u8);

    closed spec fn view(&self) -> (u16, u8, u8, u8, u8) {
        (self.year, self.month, self.day, self.hour, self.minute)
    }
}

/// Whether date fields `(year, month, day, hour, minute)` are in range:
/// month 1..=12, day 1..=31, hour 0..=23, minute 0..=59. Every date has
/// valid fields.
pub open spec fn fields_valid(v: (u16, u8, u8, u8, u8)) -> bool {
    &&& 1 <= v.1 <= 12
    &&& 1 <= v.2 <= 31
    &&& v.3 <= 23
    &&& v.4 <= 59
}

/// The order of date fields `(year, month, day, hour, minute)`: by year,
/// then month, day, hour and minute.
pub open spec fn fields_lt(x: (u16, u8, u8, u8, u8), y: (u16, u8, u8, u8, u8)) -> bool {
    ||| x.0 < y.0
    ||| x.0 == y.0 && x.1 < y.1
    ||| x.0 == y.0 && x.1 == y.1 && x.2 < y.2
    ||| x.0 == y.0 && x.1 == y.1 && x.2 == y.2 && x.3 < y.3
    ||| x.0 == y.0 && x.1 == y.1 && x.2 == y.2 && x.3 == y.3 && x.4 < y.4
}

/// The order of dates, as the derived `Ord` compares them.
pub open spec fn date_lt(a: SimpleDate, b: SimpleDate) -> bool {
    fields_lt(a@, b@)
}

impl SimpleDate {
    #[verifier::type_invariant]
    spec fn well_formed(self) -> bool {
        fields_valid(self@)
    }

    /// Reads a date written as `YYYY-MM-DD HH:MM`.
    pub fn from_str(s: &str) -> (r: Result<SimpleDate, &'static str>)
        ensures
            match spec_date_from_str(s@) {
                Ok(v) => r matches Ok(d) && d@ == v,
                Err(m) => r == Err::<SimpleDate, &'static str>(m),
            },
    {
        let chars = chars_of(s);
        SimpleDate::from_chars(chars.as_slice())
    }

    /// Reads a date written as `YYYY-MM-DD HH:MM`, given as characters.
    pub fn from_chars(chars: &[char]) -> (r: Result<SimpleDate, &'static str>)
        ensures
            match spec_date_from_str(chars@) {
                Ok(v) => r matches Ok(d) && d@ == v,
                Err(m) => r == Err::<SimpleDate, &'static str>(m),
            },
    {
        if !utf8_len_is(chars, 16) {
            return Err(DATE_LENGTH_ERROR);
        }
        let seps = ['-', ' ', ':'];
        let parts = split_chars(chars, &seps);
        proof {
            assert(seps@.to_set() =~= date_separators()) by {
                assert(seps@[0] == '-' && seps@[1] == ' ' && seps@[2] == ':');
            }
        }
        assert(parts.deep_view().len() == parts@.len());
        assert(parts.deep_view() == split_by(chars@, date_separators()));
        if parts.len() != 5 {
            return Err(DATE_SHAPE_ERROR);
        }
        assert(parts[0]@ == parts.deep_view()[0]);
        let year = match parse_decimal(parts[0].as_slice(), 0xffff_ffff) {
            Some(v) => v,
            None => { return Err(DATE_DIGIT_ERROR); },
        };
        if year > 0xffff {
            return Err(YEAR_RANGE_ERROR);
        }
        assert(parts[1]@ == parts.deep_view()[1]);
        assert(parts[2]@ == parts.deep_view()[2]);
        assert(parts[3]@ == parts.deep_view()[3]);
        assert(parts[4]@ == parts.deep_view()[4]);
        let month = match parse_decimal(parts[1].as_slice(), 0xffff_ffff) {
            Some(v) => v,
            None => { return Err(DATE_DIGIT_ERROR); },
        };
        let day = match parse_decimal(parts[2].as_slice(), 0xffff_ffff) {
            Some(v) => v,
            None => { return Err(DATE_DIGIT_ERROR); },
        };
        let hour = match parse_decimal(parts[3].as_slice(), 0xffff_ffff) {
            Some(v) => v,
            None => { return Err(DATE_DIGIT_ERROR); },
        };
        let minute = match parse_decimal(parts[4].as_slice(), 0xffff_ffff) {
            Some(v) => v,
            None => { return Err(DATE_DIGIT_ERROR); },
        };
        if !(1 <= month && month <= 12) || !(1 <= day && day <= 31) || hour > 23 || minute > 59 {
            return Err(DATE_RANGE_ERROR);
        }
        Ok(SimpleDate {
            year: year as u16,
            month: month as u8,
            day: day as u8,
            hour: hour as u8,
            minute: minute as u8,
        })
    }

    /// The characters of the date written as `YYYY-MM-DD HH:MM`.
    pub fn text_chars(&self) -> (v: Vec<char>)
        ensures v@ == spec_date_text(self@),
    {
        let mut v: Vec<char> = Vec::new();
        push_zero_padded(&mut v, self.year as u64, 4);
        v.push('-');
        push_zero_padded(&mut v, self.month as u64, 2);
        v.push('-');
        push_zero_padded(&mut v, self.day as u64, 2);
        v.push(' ');
        push_zero_padded(&mut v, self.hour as u64, 2);
        v.push(':');
        push_zero_padded(&mut v, self.minute as u64, 2);
        assert(v@ =~= spec_date_text(self@));
        v
    }

    /// The date written as `YYYY-MM-DD HH:MM`.
    pub fn to_string(&self) -> (s: String)
        ensures s@ == spec_date_text(self@),
    {
        let v = self.text_chars();
        string_from_chars(v.as_slice())
    }

    /// Whether `self` comes strictly before `other`.
    pub fn is_before(&self, other: &SimpleDate) -> (r: bool)
        ensures r == date_lt(*self, *other),
    {
        if self.year != other.year {
            self.year < other.year
        } else if self.month != other.month {
            self.month < other.month
        } else if self.day != other.day {
            self.day < other.day
        } else if self.hour != other.hour {
            self.hour < other.hour
        } else {
            self.minute < other.minute
        }
    }
}

/// The characters that separate the fields of a date.
pub open spec fn date_separators() -> Set<char> {
    set!['-', ' ', ':']
}

/// A field of a date read as a `u32`.
pub open spec fn date_field(p: Seq<char>) -> Option<nat> {
    parse_unsigned(p, u32::MAX as nat)
}

/// What reading `s` as `YYYY-MM-DD HH:MM` gives: the fields
/// `(year, month, day, hour, minute)`, or the message of the first check that
/// fails. The text must be 16 bytes long in UTF-8 and split into five fields
/// at `-`, ` ` and `:`; each field is read as a `u32`; the year must fit a
/// `u16` (checked before the other fields are read), the month lie in 1..=12,
/// the day in 1..=31, the hour in 0..=23 and the minute in 0..=59.
pub open spec fn spec_date_from_str(s: Seq<char>) -> Result<(u16, u8, u8, u8, u8), &'static str> {
    let f = split_by(s, date_separators());
    if encode_utf8(s).len() != 16 {
        Err(DATE_LENGTH_ERROR)
    } else if f.len() != 5 {
        Err(DATE_SHAPE_ERROR)
    } else if date_field(f[0]) is None {
        Err(DATE_DIGIT_ERROR)
    } else if date_field(f[0])->0 > u16::MAX {
        Err(YEAR_RANGE_ERROR)
    } else if date_field(f[1]) is None || date_field(f[2]) is None || date_field(f[3]) is None
        || date_field(f[4]) is None {
        Err(DATE_DIGIT_ERROR)
    } else {
        let (y, mo, d, h, mi) = (
            date_field(f[0])->0,
            date_field(f[1])->0,
            date_field(f[2])->0,
            date_field(f[3])->0,
            date_field(f[4])->0,
        );
        if 1 <= mo <= 12 && 1 <= d <= 31 && h <= 23 && mi <= 59 {
            Ok((y as u16, mo as u8, d as u8, h as u8, mi as u8))
        } else {
            Err(DATE_RANGE_ERROR)
        }
    }
}

impl TryFrom<&str> for SimpleDate {
    type Error = &'static str;

    fn try_from(s: &str) -> (r: Result<SimpleDate, &'static str>)
        ensures
            match spec_date_from_str(s@) {
                Ok(v) => r matches Ok(d) && d@ == v,
                Err(m) => r == Err::<SimpleDate, &'static str>(m),
            },
    {
        SimpleDate::from_str(s)
    }
}

impl vstd::std_specs::convert::TryFromSpecImpl<&str> for SimpleDate {
    open spec fn obeys_try_from_spec() -> bool {
        true
    }

    closed spec fn try_from_spec(s: &str) -> Result<SimpleDate, &'static str> {
        match spec_date_from_str(s@) {
            Ok(v) => Ok(date_with_fields(v)),
            Err(m) => Err(m),
        }
    }
}

/// How a date is written: `YYYY-MM-DD HH:MM`, each field in decimal with
/// zeros in front to its width (a year past 9999 takes more digits).
pub open spec fn spec_date_text(v: (u16, u8, u8, u8, u8)) -> Seq<char> {
    zero_padded(v.0 as nat, 4) + seq!['-'] + zero_padded(v.1 as nat, 2) + seq!['-']
        + zero_padded(v.2 as nat, 2) + seq![' '] + zero_padded(v.3 as nat, 2) + seq![':']
        + zero_padded(v.4 as nat, 2)
}

/// The date with the fields `v` (`(year, month, day, hour, minute)`).
pub closed spec fn date_with_fields(v: (u16, u8, u8, u8, u8)) -> SimpleDate {
    SimpleDate { year: v.0, month: v.1, day: v.2, hour: v.3, minute: v.4 }
}

/// A date is the date with its fields.
pub proof fn lemma_date_with_fields(d: SimpleDate, v: (u16, u8, u8, u8, u8))
    ensures date_with_fields(v)@ == v, d@ == v ==> d == date_with_fields(v),
{
}

/// Refusal of a slot that does not start before it ends.
pub const SLOT_ORDER_ERROR: &'static str = "Start date must be before end date";

/// Whether `a` is `b` or comes before it.
pub open spec fn date_le(a: SimpleDate, b: SimpleDate) -> bool {
    !date_lt(b, a)
}

/// A span of time from `start` to `end`.
#[derive(Debug, Clone, Copy, PartialEq, Eq, Structural)]
pub struct TimeSlot {
    pub start: SimpleDate,
    pub end: SimpleDate,
}

impl TimeSlot {
    /// A slot from `start` to `end`; refused unless `start` comes before `end`.
    pub fn new(start: SimpleDate, end: SimpleDate) -> (r: Result<TimeSlot, &'static str>)
        ensures
            r == (if date_lt(start, end) {
                Ok::<TimeSlot, &'static str>(TimeSlot { start, end })
            } else {
                Err(SLOT_ORDER_ERROR)
            }),
    {
        if !start.is_before(&end) {
            return Err(SLOT_ORDER_ERROR);
        }
        Ok(TimeSlot { start, end })
    }
}

/// A window of time and how many users are free for the whole of it.
#[derive(Debug, Clone, Copy, PartialEq, Eq, Structural)]
pub struct RankedSlot {
    pub slot: TimeSlot,
    pub attendance: usize,
}

/// The free slots of one user.
#[derive(Clone)]
pub struct UserAvailability {
    pub user_id: String,
    pub free_slots: Vec<TimeSlot>,
}

/// Query builder for filtering and ranking rehearsal slots.
pub struct SlotQuery {
    pub top_n: Option<usize>,
    pub start_after: Option<SimpleDate>,
    pub end_before: Option<SimpleDate>,
}

impl Default for SlotQuery {
    fn default() -> (q: SlotQuery)
        ensures
            q.top_n is None,
            q.start_after is None,
            q.end_before is None,
    {
        SlotQuery { top_n: None, start_after: None, end_before: None }
    }
}

impl SlotQuery {
    /// A query with no limit and no filter.
    pub fn new() -> (q: SlotQuery)
        ensures
            q.top_n is None,
            q.start_after is None,
            q.end_before is None,
    {
        SlotQuery { top_n: None, start_after: None, end_before: None }
    }

    /// Keeps at most `n` slots.
    pub fn with_top_n(self, n: usize) -> (q: SlotQuery)
        ensures
            q.top_n == Some(n),
            q.start_after == self.start_after,
            q.end_before == self.end_before,
    {
        let mut q = self;
        q.top_n = Some(n);
        q
    }

    /// Keeps only slots that start at `date` or later.
    pub fn with_start_after(self, date: SimpleDate) -> (q: SlotQuery)
        ensures
            q.top_n == self.top_n,
            q.start_after == Some(date),
            q.end_before == self.end_before,
    {
        let mut q = self;
        q.start_after = Some(date);
        q
    }

    /// Keeps only slots that end at `date` or earlier.
    pub fn with_end_before(self, date: SimpleDate) -> (q: SlotQuery)
        ensures
            q.top_n == self.top_n,
            q.start_after == self.start_after,
            q.end_before == Some(date),
    {
        let mut q = self;
        q.end_before = Some(date);
        q
    }
}

/// Refusal of an empty user name.
pub const USER_EMPTY_ERROR: &'static str = "Username cannot be empty";
/// Refusal of a user name with the field separator of the store in it.
pub const USER_PIPE_ERROR: &'static str = "Username cannot contain '|'";
/// Refusal of a user name that is a command of the prompt.
pub const USER_RESERVED_ERROR: &'static str = "Username cannot be a reserved command (DONE, LIST, BEST)";

/// The words of the prompt that cannot be user names.
pub open spec fn is_reserved_word(s: Seq<char>) -> bool {
    ||| s == seq!['D', 'O', 'N', 'E']
    ||| s == seq!['L', 'I', 'S', 'T']
    ||| s == seq!['B', 'E', 'S', 'T']
}

/// Whether `s` may name a user: it is not empty, has no `|`, and is no
/// command word; otherwise the message of the first rule it breaks.
pub open spec fn spec_validate_user_id(s: Seq<char>) -> Result<(), &'static str> {
    if s.len() == 0 {
        Err(USER_EMPTY_ERROR)
    } else if s.contains('|') {
        Err(USER_PIPE_ERROR)
    } else if is_reserved_word(s) {
        Err(USER_RESERVED_ERROR)
    } else {
        Ok(())
    }
}

fn is_word(chars: &[char], w0: char, w1: char, w2: char, w3: char) -> (r: bool)
    ensures r == (chars@ == seq![w0, w1, w2, w3]),
{
    if chars.len() == 4 && chars[0] == w0 && chars[1] == w1 && chars[2] == w2 && chars[3] == w3 {
        assert(chars@ =~= seq![w0, w1, w2, w3]);
        true
    } else {
        false
    }
}

/// Checks that `user_id` may name a user.
pub fn validate_user_id(user_id: &str) -> (r: Result<(), &'static str>)
    ensures
        r == spec_validate_user_id(user_id@),
        r is Ok <==> (user_id@.len() > 0 && !user_id@.contains('|')
            && user_id@ != seq!['D', 'O', 'N', 'E'] && user_id@ != seq!['L', 'I', 'S', 'T']
            && user_id@ != seq!['B', 'E', 'S', 'T']),
{
    proof {
        lemma_user_name_rules(user_id@);
    }
    let chars = chars_of(user_id);
    if chars.len() == 0 {
        return Err(USER_EMPTY_ERROR);
    }
    if contains_char(chars.as_slice(), '|') {
        return Err(USER_PIPE_ERROR);
    }
    let c = chars.as_slice();
    if is_word(c, 'D', 'O', 'N', 'E') || is_word(c, 'L', 'I', 'S', 'T') || is_word(c, 'B', 'E', 'S', 'T') {
        return Err(USER_RESERVED_ERROR);
    }
    Ok(())
}


/// The slots of each user, by the user's position.
pub open spec fn slot_lists(all_slots: Seq<&[TimeSlot]>) -> Seq<Seq<TimeSlot>> {
    all_slots.map_values(|s: &[TimeSlot]| s@)
}

/// Whether `d` is where `s` starts or ends.
pub open spec fn is_end_of(s: TimeSlot, d: SimpleDate) -> bool {
    s.start == d || s.end == d
}

/// Whether some slot of some user starts or ends at `d`.
pub open spec fn is_boundary(users: Seq<Seq<TimeSlot>>, d: SimpleDate) -> bool {
    exists|u: int, k: int|
        0 <= u < users.len() && 0 <= k < users[u].len() && #[trigger] is_end_of(users[u][k], d)
}

/// Whether slot `s` spans the whole of window `w`.
pub open spec fn covers(s: TimeSlot, w: TimeSlot) -> bool {
    date_le(s.start, w.start) && date_le(w.end, s.end)
}

/// Whether one of `slots` spans the whole of window `w`.
pub open spec fn free_during(slots: Seq<TimeSlot>, w: TimeSlot) -> bool {
    exists|k: int| 0 <= k < slots.len() && #[trigger] covers(slots[k], w)
}

/// How many of `users` are free for the whole of window `w`.
pub open spec fn attendance(users: Seq<Seq<TimeSlot>>, w: TimeSlot) -> nat
    decreases users.len(),
{
    if users.len() == 0 {
        0
    } else {
        attendance(users.drop_last(), w) + if free_during(users.last(), w) { 1nat } else { 0nat }
    }
}

/// Whether `w` runs from one boundary of `users` to the next one: both ends
/// are boundaries, the start comes first, and no boundary lies in between.
pub open spec fn is_window(users: Seq<Seq<TimeSlot>>, w: TimeSlot) -> bool {
    &&& is_boundary(users, w.start)
    &&& is_boundary(users, w.end)
    &&& date_lt(w.start, w.end)
    &&& forall|d: SimpleDate| #[trigger] is_boundary(users, d)
        ==> !(date_lt(w.start, d) && date_lt(d, w.end))
}

/// The ranking order: more users first, and among equals the earlier start.
pub open spec fn ranks_before(a: RankedSlot, b: RankedSlot) -> bool {
    ||| a.attendance > b.attendance
    ||| a.attendance == b.attendance && date_lt(a.slot.start, b.slot.start)
}

/// Whether every slot of `r` ranks before each one after it.
pub open spec fn is_ranked(r: Seq<RankedSlot>) -> bool {
    forall|i: int, j: int| 0 <= i < j < r.len() ==> ranks_before(#[trigger] r[i], #[trigger] r[j])
}

/// Whether `b` is in strictly increasing order.
pub open spec fn is_increasing(b: Seq<SimpleDate>) -> bool {
    forall|i: int, j: int| 0 <= i < j < b.len() ==> date_lt(#[trigger] b[i], #[trigger] b[j])
}

proof fn lemma_increasing_index(b: Seq<SimpleDate>, x: int, y: int)
    requires
        is_increasing(b),
        0 <= x < b.len(),
        0 <= y < b.len(),
        date_lt(b[x], b[y]),
    ensures x < y,
{
    if y <= x {
        if y < x {
            assert(date_lt(b[y], b[x]));
        }
    }
}

/// Adds `d` to the increasing dates `b` unless it is there already.
fn insert_boundary(b: &mut Vec<SimpleDate>, d: SimpleDate)
    requires is_increasing(old(b)@),
    ensures
        is_increasing(final(b)@),
        forall|x: SimpleDate| #[trigger] final(b)@.contains(x) <==> (old(b)@.contains(x) || x == d),
{
    let mut p: usize = 0;
    while p < b.len() && b[p].is_before(&d)
        invariant
            p <= b.len(),
            forall|i: int| 0 <= i < p ==> date_lt(#[trigger] b@[i], d),
        decreases b.len() - p,
    {
        p = p + 1;
    }
    if p < b.len() && b[p] == d {
        assert(b@[p as int] == d);
        return;
    }
    let ghost old_b = b@;
    b.insert(p, d);
    proof {
        assert forall|i: int, j: int| 0 <= i < j < b@.len() implies date_lt(#[trigger] b@[i], #[trigger] b@[j]) by {
            if j < p {
            } else if i < p && j == p {
            } else if i < p {
                assert(date_lt(old_b[i], old_b[j - 1]));
            } else if i == p {
                assert(date_le(d, old_b[p as int]));
                if j - 1 > p {
                    assert(date_lt(old_b[p as int], old_b[j - 1]));
                }
            } else {
                assert(date_lt(old_b[i - 1], old_b[j - 1]));
            }
        }
        assert forall|x: SimpleDate| #[trigger] b@.contains(x) <==> (old_b.contains(x) || x == d) by {
            if old_b.contains(x) {
                let i = choose|i: int| 0 <= i < old_b.len() && old_b[i] == x;
                if i < p {
                    assert(b@[i] == x);
                } else {
                    assert(b@[i + 1] == x);
                }
            }
            if b@.contains(x) {
                let i = choose|i: int| 0 <= i < b@.len() && b@[i] == x;
                if i < p {
                    assert(old_b[i] == x);
                } else if i > p {
                    assert(old_b[i - 1] == x);
                }
            }
            if x == d {
                assert(b@[p as int] == d);
            }
        }
        assert(old_b == old(b)@);
    }
}

/// Whether `d` is where one of the first `k` slots of `slots` starts or ends.
pub open spec fn ends_among(slots: Seq<TimeSlot>, k: int, d: SimpleDate) -> bool {
    exists|j: int| 0 <= j < k && #[trigger] is_end_of(slots[j], d)
}

/// Whether `d` is a boundary of one of the first `u` users.
pub open spec fn boundary_among(users: Seq<Seq<TimeSlot>>, u: int, d: SimpleDate) -> bool {
    exists|v: int, k: int| 0 <= v < u && 0 <= k < users[v].len() && #[trigger] is_end_of(users[v][k], d)
}

/// All the dates where a slot starts or ends, in increasing order.
fn collect_boundaries(all_slots: &Vec<&[TimeSlot]>) -> (b: Vec<SimpleDate>)
    ensures
        is_increasing(b@),
        forall|d: SimpleDate| b@.contains(d) <==> is_boundary(slot_lists(all_slots@), d),
{
    let ghost users = slot_lists(all_slots@);
    let mut b: Vec<SimpleDate> = Vec::new();
    for u in 0..all_slots.len()
        invariant
            users == slot_lists(all_slots@),
            is_increasing(b@),
            forall|d: SimpleDate| b@.contains(d) <==> boundary_among(users, u as int, d),
    {
        let slots: &[TimeSlot] = all_slots[u];
        assert(users[u as int] == slots@);
        for k in 0..slots.len()
            invariant
                users == slot_lists(all_slots@),
                users[u as int] == slots@,
                u < users.len(),
                is_increasing(b@),
                forall|d: SimpleDate| b@.contains(d) <==>
                    (boundary_among(users, u as int, d) || ends_among(slots@, k as int, d)),
        {
            let s = slots[k];
            insert_boundary(&mut b, s.start);
            insert_boundary(&mut b, s.end);
            assert forall|d: SimpleDate| b@.contains(d) <==>
                (boundary_among(users, u as int, d) || ends_among(slots@, k + 1, d)) by {
                if ends_among(slots@, k + 1, d) {
                    let j = choose|j: int| 0 <= j < k + 1 && #[trigger] is_end_of(slots@[j], d);
                    if j < k {
                        assert(ends_among(slots@, k as int, d));
                    }
                }
                if d == s.start || d == s.end {
                    assert(is_end_of(slots@[k as int], d));
                }
                if ends_among(slots@, k as int, d) {
                    let j = choose|j: int| 0 <= j < k && #[trigger] is_end_of(slots@[j], d);
                    assert(is_end_of(slots@[j], d));
                }
            }
        }
        assert forall|d: SimpleDate| b@.contains(d) <==> boundary_among(users, u + 1, d) by {
            if boundary_among(users, u + 1, d) {
                let (v, k) = choose|v: int, k: int|
                    0 <= v < u + 1 && 0 <= k < users[v].len() && #[trigger] is_end_of(users[v][k], d);
                if v < u {
                    assert(boundary_among(users, u as int, d));
                } else {
                    assert(ends_among(slots@, slots@.len() as int, d));
                }
            }
            if ends_among(slots@, slots@.len() as int, d) {
                let j = choose|j: int| 0 <= j < slots@.len() && #[trigger] is_end_of(slots@[j], d);
                assert(is_end_of(users[u as int][j], d));
            }
            if boundary_among(users, u as int, d) {
                let (v, k) = choose|v: int, k: int|
                    0 <= v < u && 0 <= k < users[v].len() && #[trigger] is_end_of(users[v][k], d);
                assert(is_end_of(users[v][k], d));
            }
        }
    }
    b
}


proof fn lemma_attendance_bound(users: Seq<Seq<TimeSlot>>, w: TimeSlot)
    ensures attendance(users, w) <= users.len(),
    decreases users.len(),
{
    if users.len() > 0 {
        lemma_attendance_bound(users.drop_last(), w);
    }
}

/// Whether one of `slots` spans the whole of `w`.
fn is_free_during(slots: &[TimeSlot], w: &TimeSlot) -> (r: bool)
    ensures r == free_during(slots@, *w),
{
    for k in 0..slots.len()
        invariant forall|j: int| 0 <= j < k ==> !covers(#[trigger] slots@[j], *w),
    {
        let s = slots[k];
        if !w.start.is_before(&s.start) && !s.end.is_before(&w.end) {
            assert(covers(slots@[k as int], *w));
            return true;
        }
    }
    false
}

/// How many users are free for the whole of `w`.
fn count_attendance(all_slots: &Vec<&[TimeSlot]>, w: &TimeSlot) -> (n: usize)
    ensures n == attendance(slot_lists(all_slots@), *w),
{
    let ghost users = slot_lists(all_slots@);
    let mut n: usize = 0;
    for u in 0..all_slots.len()
        invariant
            users == slot_lists(all_slots@),
            n == attendance(users.take(u as int), *w),
            n <= u,
    {
        assert(users.take(u + 1).drop_last() =~= users.take(u as int));
        assert(users[u as int] == all_slots@[u as int]@);
        if is_free_during(all_slots[u], w) {
            n = n + 1;
        }
    }
    assert(users.take(all_slots.len() as int) =~= users);
    n
}

/// Puts `item` into the ranked slots `r` at its place in the ranking.
fn insert_ranked(r: &mut Vec<RankedSlot>, item: RankedSlot)
    requires
        is_ranked(old(r)@),
        forall|i: int| 0 <= i < old(r)@.len() ==> (#[trigger] old(r)@[i]).slot.start != item.slot.start,
    ensures
        is_ranked(final(r)@),
        exists|p: int| 0 <= p <= old(r)@.len() && final(r)@ == old(r)@.insert(p, item),
{
    let mut p: usize = 0;
    while p < r.len() && !ranks_above(&item, &r[p])
        invariant
            p <= r.len(),
            forall|i: int| 0 <= i < p ==> !ranks_before(item, #[trigger] r@[i]),
        decreases r.len() - p,
    {
        p = p + 1;
    }
    let ghost old_r = r@;
    r.insert(p, item);
    proof {
        assert forall|i: int, j: int| 0 <= i < j < r@.len() implies ranks_before(#[trigger] r@[i], #[trigger] r@[j]) by {
            if j < p {
            } else if i < p && j == p {
                assert(old_r[i].slot.start != item.slot.start);
            } else if i < p {
                assert(ranks_before(old_r[i], old_r[j - 1]));
            } else if i == p {
                assert(ranks_before(item, old_r[p as int]));
                if j - 1 > p {
                    assert(ranks_before(old_r[p as int], old_r[j - 1]));
                }
            } else {
                assert(ranks_before(old_r[i - 1], old_r[j - 1]));
            }
        }
    }
}

/// Whether `a` ranks before `b`.
fn ranks_above(a: &RankedSlot, b: &RankedSlot) -> (r: bool)
    ensures r == ranks_before(*a, *b),
{
    a.attendance > b.attendance || (a.attendance == b.attendance && a.slot.start.is_before(&b.slot.start))
}

/// The window from boundary `i` to boundary `i + 1` of `b`.
pub open spec fn window_at(b: Seq<SimpleDate>, i: int) -> TimeSlot {
    TimeSlot { start: b[i], end: b[i + 1] }
}

/// The window from boundary `j` to boundary `j + 1`, with its attendance.
pub open spec fn ranked_window(users: Seq<Seq<TimeSlot>>, b: Seq<SimpleDate>, j: int) -> RankedSlot {
    RankedSlot { slot: window_at(b, j), attendance: attendance(users, window_at(b, j)) as usize }
}

/// Whether `item` is the window at some boundary `j < i`, with its
/// attendance, which is not zero.
spec fn is_window_before(users: Seq<Seq<TimeSlot>>, b: Seq<SimpleDate>, item: RankedSlot, i: int) -> bool {
    exists|j: int| 0 <= j < i && j + 1 < b.len()
        && item == ranked_window(users, b, j)
        && attendance(users, window_at(b, j)) > 0
}

/// Every slot of `r` is the window at some boundary `j < i`, with its
/// attendance, which is not zero.
#[verifier::opaque]
spec fn only_windows_before(users: Seq<Seq<TimeSlot>>, b: Seq<SimpleDate>, r: Seq<RankedSlot>, i: int) -> bool {
    forall|k: int| 0 <= k < r.len() ==> is_window_before(users, b, #[trigger] r[k], i)
}

/// Every window at a boundary `j < i` with some attendance is in `r`.
#[verifier::opaque]
spec fn all_windows_before(users: Seq<Seq<TimeSlot>>, b: Seq<SimpleDate>, r: Seq<RankedSlot>, i: int) -> bool {
    forall|j: int| 0 <= j < i && j + 1 < b.len() && #[trigger] attendance(users, window_at(b, j)) > 0
        ==> exists|k: int| 0 <= k < r.len() && r[k].slot == window_at(b, j)
}

proof fn lemma_new_start_is_fresh(users: Seq<Seq<TimeSlot>>, b: Seq<SimpleDate>, r: Seq<RankedSlot>, i: int)
    requires
        is_increasing(b),
        0 <= i && i + 1 < b.len(),
        only_windows_before(users, b, r, i),
    ensures
        forall|k: int| 0 <= k < r.len() ==> (#[trigger] r[k]).slot.start != b[i],
{
    reveal(only_windows_before);
    assert forall|k: int| 0 <= k < r.len() implies (#[trigger] r[k]).slot.start != b[i] by {
        assert(is_window_before(users, b, r[k], i));
        let j = choose|j: int| 0 <= j < i && j + 1 < b.len()
            && r[k] == ranked_window(users, b, j)
            && attendance(users, window_at(b, j)) > 0;
        assert(date_lt(b[j], b[i]));
    }
}

proof fn lemma_step_with_insert(
    users: Seq<Seq<TimeSlot>>,
    b: Seq<SimpleDate>,
    before: Seq<RankedSlot>,
    after: Seq<RankedSlot>,
    p: int,
    i: int,
)
    requires
        0 <= i && i + 1 < b.len(),
        0 <= p <= before.len(),
        attendance(users, window_at(b, i)) > 0,
        after == before.insert(p, ranked_window(users, b, i)),
        only_windows_before(users, b, before, i),
        all_windows_before(users, b, before, i),
    ensures
        only_windows_before(users, b, after, i + 1),
        all_windows_before(users, b, after, i + 1),
{
    reveal(only_windows_before);
    reveal(all_windows_before);
    assert forall|k: int| 0 <= k < after.len() implies is_window_before(users, b, #[trigger] after[k], i + 1) by {
        if k < p {
            assert(after[k] == before[k]);
            lemma_window_before_grows(users, b, before[k], i);
        } else if k > p {
            assert(after[k] == before[k - 1]);
            lemma_window_before_grows(users, b, before[k - 1], i);
        } else {
            assert(after[k] == ranked_window(users, b, i));
        }
    }
    assert forall|j: int| 0 <= j < i + 1 && j + 1 < b.len()
        && #[trigger] attendance(users, window_at(b, j)) > 0
        implies exists|k: int| 0 <= k < after.len() && after[k].slot == window_at(b, j) by {
        if j < i {
            let k = choose|k: int| 0 <= k < before.len() && before[k].slot == window_at(b, j);
            if k < p {
                assert(after[k] == before[k]);
            } else {
                assert(after[k + 1] == before[k]);
            }
        } else {
            assert(after[p] == ranked_window(users, b, i));
        }
    }
}

proof fn lemma_step_without_insert(users: Seq<Seq<TimeSlot>>, b: Seq<SimpleDate>, r: Seq<RankedSlot>, i: int)
    requires
        0 <= i && i + 1 < b.len(),
        attendance(users, window_at(b, i)) == 0,
        only_windows_before(users, b, r, i),
        all_windows_before(users, b, r, i),
    ensures
        only_windows_before(users, b, r, i + 1),
        all_windows_before(users, b, r, i + 1),
{
    reveal(only_windows_before);
    reveal(all_windows_before);
    assert forall|k: int| 0 <= k < r.len() implies is_window_before(users, b, #[trigger] r[k], i + 1) by {
        lemma_window_before_grows(users, b, r[k], i);
    }
}

proof fn lemma_window_before_grows(users: Seq<Seq<TimeSlot>>, b: Seq<SimpleDate>, item: RankedSlot, i: int)
    requires is_window_before(users, b, item, i),
    ensures is_window_before(users, b, item, i + 1),
{
    let j = choose|j: int| 0 <= j < i && j + 1 < b.len()
        && item == ranked_window(users, b, j)
        && attendance(users, window_at(b, j)) > 0;
    assert(0 <= j < i + 1);
}

proof fn lemma_ranked_windows(users: Seq<Seq<TimeSlot>>, b: Seq<SimpleDate>, r: Seq<RankedSlot>, n: int)
    requires
        users.len() <= usize::MAX,
        n + 1 >= b.len(),
        is_increasing(b),
        forall|d: SimpleDate| b.contains(d) <==> is_boundary(users, d),
        only_windows_before(users, b, r, n),
        all_windows_before(users, b, r, n),
    ensures
        forall|i: int| 0 <= i < r.len() ==> {
            &&& is_window(users, (#[trigger] r[i]).slot)
            &&& r[i].attendance == attendance(users, r[i].slot)
            &&& r[i].attendance > 0
        },
        forall|w: TimeSlot| is_window(users, w) && #[trigger] attendance(users, w) > 0
            ==> exists|i: int| 0 <= i < r.len() && r[i].slot == w,
{
    reveal(only_windows_before);
    reveal(all_windows_before);
    lemma_windows_of_boundaries(users, b);
    assert forall|i: int| 0 <= i < r.len() implies {
        &&& is_window(users, (#[trigger] r[i]).slot)
        &&& r[i].attendance == attendance(users, r[i].slot)
        &&& r[i].attendance > 0
    } by {
        assert(is_window_before(users, b, r[i], n));
        let j = choose|j: int| 0 <= j < n && j + 1 < b.len()
            && r[i] == ranked_window(users, b, j)
            && attendance(users, window_at(b, j)) > 0;
        assert(is_window(users, window_at(b, j)));
        lemma_attendance_bound(users, window_at(b, j));
        assert(r[i].slot == window_at(b, j));
    }
    assert forall|w: TimeSlot| is_window(users, w) && #[trigger] attendance(users, w) > 0
        implies exists|i: int| 0 <= i < r.len() && r[i].slot == w by {
        let j = choose|j: int| 0 <= j && j + 1 < b.len() && w == window_at(b, j);
        assert(attendance(users, window_at(b, j)) > 0);
        assert(j < n);
    }
}

/// Whether `r` is the ranking of the windows of `users`: each entry is a
/// window with its attendance, which is not zero; each window with some
/// attendance is there; and the entries are in ranking order.
pub open spec fn is_best_ranking(users: Seq<Seq<TimeSlot>>, r: Seq<RankedSlot>) -> bool {
    &&& forall|i: int| 0 <= i < r.len() ==> {
        &&& is_window(users, (#[trigger] r[i]).slot)
        &&& r[i].attendance == attendance(users, r[i].slot)
        &&& r[i].attendance > 0
    }
    &&& forall|w: TimeSlot| is_window(users, w) && #[trigger] attendance(users, w) > 0
        ==> exists|i: int| 0 <= i < r.len() && r[i].slot == w
    &&& is_ranked(r)
}

/// Identifies and ranks the best rehearsal slots: every window between two
/// consecutive dates at which some slot starts or ends, with the number of
/// users free for all of it, kept where that number is not zero, in ranking
/// order (more users first, then the earlier start).
pub fn find_best_availabilities(all_slots: Vec<&[TimeSlot]>) -> (r: Vec<RankedSlot>)
    ensures is_best_ranking(slot_lists(all_slots@), r@),
{
    let ghost users = slot_lists(all_slots@);
    let mut ranked: Vec<RankedSlot> = Vec::new();
    if all_slots.len() == 0 {
        proof {
            assert forall|w: TimeSlot| is_window(users, w) implies false by {
                assert(is_boundary(users, w.start));
            }
        }
        return ranked;
    }
    let b = collect_boundaries(&all_slots);
    let nb = b.len();
    let mut i: usize = 0;
    proof {
        reveal(only_windows_before);
        reveal(all_windows_before);
    }
    while i < nb && i + 1 < nb
        invariant
            users == slot_lists(all_slots@),
            nb == b@.len(),
            is_increasing(b@),
            forall|d: SimpleDate| b@.contains(d) <==> is_boundary(users, d),
            is_ranked(ranked@),
            only_windows_before(users, b@, ranked@, i as int),
            all_windows_before(users, b@, ranked@, i as int),
            i + 1 <= nb || nb == 0,
        decreases nb - i,
    {
        let w = TimeSlot { start: b[i], end: b[i + 1] };
        let n = count_attendance(&all_slots, &w);
        if n > 0 {
            let item = RankedSlot { slot: w, attendance: n };
            let ghost before = ranked@;
            proof {
                lemma_new_start_is_fresh(users, b@, ranked@, i as int);
            }
            insert_ranked(&mut ranked, item);
            proof {
                let p = choose|p: int| 0 <= p <= before.len() && ranked@ == before.insert(p, item);
                lemma_step_with_insert(users, b@, before, ranked@, p, i as int);
            }
        } else {
            proof {
                lemma_step_without_insert(users, b@, ranked@, i as int);
            }
        }
        i = i + 1;
    }
    proof {
        lemma_ranked_windows(users, b@, ranked@, i as int);
    }
    ranked
}

/// The consecutive pairs of the increasing boundaries are the windows.
proof fn lemma_windows_of_boundaries(users: Seq<Seq<TimeSlot>>, b: Seq<SimpleDate>)
    requires
        is_increasing(b),
        forall|d: SimpleDate| b.contains(d) <==> is_boundary(users, d),
    ensures
        forall|j: int| 0 <= j && j + 1 < b.len() ==> is_window(users, #[trigger] window_at(b, j)),
        forall|w: TimeSlot| #[trigger] is_window(users, w) ==>
            exists|j: int| 0 <= j && j + 1 < b.len() && w == window_at(b, j),
{
    assert forall|j: int| 0 <= j && j + 1 < b.len() implies is_window(users, #[trigger] window_at(b, j)) by {
        assert(b.contains(b[j]));
        assert(b.contains(b[j + 1]));
        assert forall|d: SimpleDate| #[trigger] is_boundary(users, d)
            implies !(date_lt(b[j], d) && date_lt(d, b[j + 1])) by {
            assert(b.contains(d));
            let m = choose|m: int| 0 <= m < b.len() && b[m] == d;
            if date_lt(b[j], d) && date_lt(d, b[j + 1]) {
                lemma_increasing_index(b, j, m);
                lemma_increasing_index(b, m, j + 1);
            }
        }
    }
    assert forall|w: TimeSlot| #[trigger] is_window(users, w) implies
        exists|j: int| 0 <= j && j + 1 < b.len() && w == window_at(b, j) by {
        assert(b.contains(w.start));
        assert(b.contains(w.end));
        let x = choose|x: int| 0 <= x < b.len() && b[x] == w.start;
        let y = choose|y: int| 0 <= y < b.len() && b[y] == w.end;
        lemma_increasing_index(b, x, y);
        if y > x + 1 {
            assert(date_lt(b[x], b[x + 1]));
            assert(date_lt(b[x + 1], b[y]));
            assert(b.contains(b[x + 1]));
            assert(is_boundary(users, b[x + 1]));
        }
        assert(w == window_at(b, x));
    }
}


/// Five digit fields joined by `-`, `-`, ` ` and `:` split back into them.
proof fn lemma_split_date_fields(f0: Seq<char>, f1: Seq<char>, f2: Seq<char>, f3: Seq<char>, f4: Seq<char>)
    requires all_digits(f0), all_digits(f1), all_digits(f2), all_digits(f3), all_digits(f4),
    ensures
        split_by(f0 + seq!['-'] + f1 + seq!['-'] + f2 + seq![' '] + f3 + seq![':'] + f4, date_separators())
            == seq![f0, f1, f2, f3, f4],
{
    let seps = date_separators();
    assert forall|s: Seq<char>| #[trigger] all_digits(s) implies
        (forall|i: int| 0 <= i < s.len() ==> !seps.contains(#[trigger] s[i])) by {
        assert forall|i: int| 0 <= i < s.len() implies !seps.contains(#[trigger] s[i]) by {
            assert(is_digit(s[i]));
        }
    }
    let e = Seq::<char>::empty();
    lemma_split_plain_tail(e, f0, seps);
    assert(e + f0 =~= f0);
    assert(split_by(e, seps) =~= seq![e]);
    assert(split_by(f0, seps) =~= seq![f0]);
    let t1 = f0 + seq!['-'];
    lemma_split_sep_tail(f0, '-', seps);
    let t2 = t1 + f1;
    lemma_split_plain_tail(t1, f1, seps);
    assert(split_by(t2, seps) =~= seq![f0, f1]);
    let t3 = t2 + seq!['-'];
    lemma_split_sep_tail(t2, '-', seps);
    let t4 = t3 + f2;
    lemma_split_plain_tail(t3, f2, seps);
    assert(split_by(t4, seps) =~= seq![f0, f1, f2]);
    let t5 = t4 + seq![' '];
    lemma_split_sep_tail(t4, ' ', seps);
    let t6 = t5 + f3;
    lemma_split_plain_tail(t5, f3, seps);
    assert(split_by(t6, seps) =~= seq![f0, f1, f2, f3]);
    let t7 = t6 + seq![':'];
    lemma_split_sep_tail(t6, ':', seps);
    let t8 = t7 + f4;
    lemma_split_plain_tail(t7, f4, seps);
    assert(split_by(t8, seps) =~= seq![f0, f1, f2, f3, f4]);
}

proof fn lemma_padded_field(n: nat, w: nat)
    requires decimal_digits(n).len() <= w, w >= 1,
    ensures
        zero_padded(n, w).len() == w,
        date_field(zero_padded(n, w)) == Some(n) || n > u32::MAX,
        forall|i: int| 0 <= i < w ==> is_digit(#[trigger] zero_padded(n, w)[i]),
{
    lemma_zero_padded(n, w);
    if n <= u32::MAX {
        lemma_parse_digits(zero_padded(n, w), u32::MAX as nat);
    }
}

/// A date written out reads back as the same date, as long as its year has
/// no more than four digits (a later year makes the text too long).
pub proof fn lemma_date_text_round_trip(v: (u16, u8, u8, u8, u8))
    requires fields_valid(v), v.0 <= 9999,
    ensures
        spec_date_from_str(spec_date_text(v)) == Ok::<(u16, u8, u8, u8, u8), &'static str>(v),
        spec_date_text(v).len() == 16,
        forall|i: int| 0 <= i < 16 ==> is_digit(#[trigger] spec_date_text(v)[i])
            || date_separators().contains(spec_date_text(v)[i]),
{
    lemma_decimal_digits(v.0 as nat);
    lemma_decimal_digits(v.1 as nat);
    lemma_decimal_digits(v.2 as nat);
    lemma_decimal_digits(v.3 as nat);
    lemma_decimal_digits(v.4 as nat);
    let f0 = zero_padded(v.0 as nat, 4);
    let f1 = zero_padded(v.1 as nat, 2);
    let f2 = zero_padded(v.2 as nat, 2);
    let f3 = zero_padded(v.3 as nat, 2);
    let f4 = zero_padded(v.4 as nat, 2);
    lemma_padded_field(v.0 as nat, 4);
    lemma_padded_field(v.1 as nat, 2);
    lemma_padded_field(v.2 as nat, 2);
    lemma_padded_field(v.3 as nat, 2);
    lemma_padded_field(v.4 as nat, 2);
    let seps = date_separators();
    lemma_split_date_fields(f0, f1, f2, f3, f4);
    let t8 = f0 + seq!['-'] + f1 + seq!['-'] + f2 + seq![' '] + f3 + seq![':'] + f4;
    assert(t8 == spec_date_text(v));
    // The text is ASCII, so its UTF-8 length is its length.
    assert(t8.len() == 16);
    assert forall|i: int| 0 <= i < 16 implies is_digit(#[trigger] t8[i]) || seps.contains(t8[i]) by {
        if i < 4 {
            assert(t8[i] == f0[i]);
        } else if 5 <= i < 7 {
            assert(t8[i] == f1[i - 5]);
        } else if 8 <= i < 10 {
            assert(t8[i] == f2[i - 8]);
        } else if 11 <= i < 13 {
            assert(t8[i] == f3[i - 11]);
        } else if 14 <= i < 16 {
            assert(t8[i] == f4[i - 14]);
        }
    }
    assert(vstd::utf8::is_ascii_chars(t8)) by {
        assert forall|i: int| 0 <= i < t8.len() implies '\0' <= #[trigger] t8[i] <= '\u{7f}' by {
            if i < 4 {
                assert(t8[i] == f0[i]);
            } else if 5 <= i < 7 {
                assert(t8[i] == f1[i - 5]);
            } else if 8 <= i < 10 {
                assert(t8[i] == f2[i - 8]);
            } else if 11 <= i < 13 {
                assert(t8[i] == f3[i - 11]);
            } else if 14 <= i < 16 {
                assert(t8[i] == f4[i - 14]);
            }
        }
    }
    vstd::utf8::is_ascii_chars_encode_utf8(t8);
}


/// Two rankings with the same slots are the same sequence.
proof fn lemma_ranked_same_elements(a: Seq<RankedSlot>, b: Seq<RankedSlot>)
    requires
        is_ranked(a),
        is_ranked(b),
        forall|x: RankedSlot| a.contains(x) <==> b.contains(x),
    ensures a == b,
    decreases a.len(),
{
    if a.len() == 0 {
        if b.len() > 0 {
            assert(b.contains(b[0]));
        }
        assert(a =~= b);
    } else {
        assert(a.contains(a[0]));
        let k = choose|k: int| 0 <= k < b.len() && b[k] == a[0];
        assert(b.contains(b[0]));
        let m = choose|m: int| 0 <= m < a.len() && a[m] == b[0];
        if k > 0 {
            assert(ranks_before(b[0], b[k]));
            if m > 0 {
                assert(ranks_before(a[0], a[m]));
            }
        }
        assert(a[0] == b[0]);
        let a2 = a.drop_first();
        let b2 = b.drop_first();
        assert forall|x: RankedSlot| a2.contains(x) <==> b2.contains(x) by {
            if a2.contains(x) {
                let i = choose|i: int| 0 <= i < a2.len() && a2[i] == x;
                assert(ranks_before(a[0], a[i + 1]));
                assert(b.contains(x));
                let j = choose|j: int| 0 <= j < b.len() && b[j] == x;
                assert(j != 0);
                assert(b2[j - 1] == x);
            }
            if b2.contains(x) {
                let i = choose|i: int| 0 <= i < b2.len() && b2[i] == x;
                assert(ranks_before(b[0], b[i + 1]));
                assert(a.contains(x));
                let j = choose|j: int| 0 <= j < a.len() && a[j] == x;
                assert(j != 0);
                assert(a2[j - 1] == x);
            }
        }
        assert forall|i: int, j: int| 0 <= i < j < a2.len() implies ranks_before(#[trigger] a2[i], #[trigger] a2[j]) by {
            assert(ranks_before(a[i + 1], a[j + 1]));
        }
        assert forall|i: int, j: int| 0 <= i < j < b2.len() implies ranks_before(#[trigger] b2[i], #[trigger] b2[j]) by {
            assert(ranks_before(b[i + 1], b[j + 1]));
        }
        lemma_ranked_same_elements(a2, b2);
        assert(a =~= seq![a[0]] + a2);
        assert(b =~= seq![b[0]] + b2);
    }
}

/// The ranking of the windows of `users` is determined: there is only one
/// sequence that meets `is_best_ranking`, so `find_best_availabilities`
/// returns the same slots in the same order whatever the implementation.
pub proof fn lemma_best_ranking_unique(users: Seq<Seq<TimeSlot>>, r1: Seq<RankedSlot>, r2: Seq<RankedSlot>)
    requires is_best_ranking(users, r1), is_best_ranking(users, r2),
    ensures r1 == r2,
{
    assert forall|x: RankedSlot| r1.contains(x) <==> r2.contains(x) by {
        if r1.contains(x) {
            let i = choose|i: int| 0 <= i < r1.len() && r1[i] == x;
            assert(is_window(users, r1[i].slot) && attendance(users, r1[i].slot) > 0);
            let k = choose|k: int| 0 <= k < r2.len() && r2[k].slot == x.slot;
            assert(r2[k] == x);
        }
        if r2.contains(x) {
            let i = choose|i: int| 0 <= i < r2.len() && r2[i] == x;
            assert(is_window(users, r2[i].slot) && attendance(users, r2[i].slot) > 0);
            let k = choose|k: int| 0 <= k < r1.len() && r1[k].slot == x.slot;
            assert(r1[k] == x);
        }
    }
    lemma_ranked_same_elements(r1, r2);
}

/// The order of dates is a strict total order: no date comes before itself,
/// it is transitive, and of two different dates one comes first.
pub proof fn lemma_date_order(a: SimpleDate, b: SimpleDate, c: SimpleDate)
    ensures
        !date_lt(a, a),
        date_lt(a, b) && date_lt(b, c) ==> date_lt(a, c),
        date_lt(a, b) || date_lt(b, a) || a == b,
{
}


/// Whether `s` is a date written in full: `DDDD-DD-DD DD:DD`, each `D` an
/// ASCII digit.
pub open spec fn is_date_text(s: Seq<char>) -> bool {
    &&& s.len() == 16
    &&& s[4] == '-' && s[7] == '-' && s[10] == ' ' && s[13] == ':'
    &&& forall|i: int| 0 <= i < 16 && i != 4 && i != 7 && i != 10 && i != 13 ==> is_digit(#[trigger] s[i])
}

proof fn lemma_digit_run(s: Seq<char>, from: int, to: int)
    requires is_date_text(s), 0 <= from <= to <= 16,
        to <= 4 || from >= 5,
        to <= 7 || from >= 8,
        to <= 10 || from >= 11,
        to <= 13 || from >= 14,
    ensures all_digits(s.subrange(from, to)),
{
    assert forall|i: int| 0 <= i < to - from implies is_digit(#[trigger] s.subrange(from, to)[i]) by {
        assert(s.subrange(from, to)[i] == s[from + i]);
    }
}

proof fn lemma_field_fits(f: Seq<char>)
    requires all_digits(f), f.len() == 2 || f.len() == 4,
    ensures
        decimal_digits(digits_value(f)).len() <= f.len(),
        zero_padded(digits_value(f), f.len()) == f,
        date_field(f) == Some(digits_value(f)),
        digits_value(f) <= 9999,
{
    lemma_digits_value_bound(f);
    assert(crate::text::pow10(0) == 1);
    assert(crate::text::pow10(1) == 10);
    assert(crate::text::pow10(2) == 100);
    assert(crate::text::pow10(3) == 1000);
    assert(crate::text::pow10(4) == 10000);
    lemma_decimal_digits(digits_value(f));
    lemma_padded_digits(f);
    lemma_parse_digits(f, u32::MAX as nat);
}

/// A date written in full, once read, is written back as the same text.
pub proof fn lemma_date_text_canonical(s: Seq<char>)
    requires is_date_text(s), spec_date_from_str(s) is Ok,
    ensures spec_date_text(spec_date_from_str(s)->Ok_0) == s,
{
    let f0 = s.subrange(0, 4);
    let f1 = s.subrange(5, 7);
    let f2 = s.subrange(8, 10);
    let f3 = s.subrange(11, 13);
    let f4 = s.subrange(14, 16);
    lemma_digit_run(s, 0, 4);
    lemma_digit_run(s, 5, 7);
    lemma_digit_run(s, 8, 10);
    lemma_digit_run(s, 11, 13);
    lemma_digit_run(s, 14, 16);
    assert(s =~= f0 + seq!['-'] + f1 + seq!['-'] + f2 + seq![' '] + f3 + seq![':'] + f4);
    lemma_split_date_fields(f0, f1, f2, f3, f4);
    lemma_field_fits(f0);
    lemma_field_fits(f1);
    lemma_field_fits(f2);
    lemma_field_fits(f3);
    lemma_field_fits(f4);
    let v = spec_date_from_str(s)->Ok_0;
    assert(v.0 as nat == digits_value(f0));
    assert(v.1 as nat == digits_value(f1));
    assert(v.2 as nat == digits_value(f2));
    assert(v.3 as nat == digits_value(f3));
    assert(v.4 as nat == digits_value(f4));
}

proof fn lemma_field_text_order(x: nat, y: nat, w: nat)
    requires
        decimal_digits(x).len() <= w,
        decimal_digits(y).len() <= w,
    ensures
        text_lt(zero_padded(x, w), zero_padded(y, w)) <==> x < y,
        zero_padded(x, w) == zero_padded(y, w) <==> x == y,
        zero_padded(x, w).len() == w,
{
    lemma_zero_padded(x, w);
    lemma_zero_padded(y, w);
    lemma_digits_order(zero_padded(x, w), zero_padded(y, w));
}

/// Two texts made of five fields each, joined by the same separators, with
/// fields of the same lengths: the first field that differs decides.
proof fn lemma_five_field_order(
    a0: Seq<char>, a1: Seq<char>, a2: Seq<char>, a3: Seq<char>, a4: Seq<char>,
    b0: Seq<char>, b1: Seq<char>, b2: Seq<char>, b3: Seq<char>, b4: Seq<char>,
)
    requires a0.len() == b0.len(), a1.len() == b1.len(), a2.len() == b2.len(), a3.len() == b3.len(),
    ensures
        text_lt(
            a0 + seq!['-'] + a1 + seq!['-'] + a2 + seq![' '] + a3 + seq![':'] + a4,
            b0 + seq!['-'] + b1 + seq!['-'] + b2 + seq![' '] + b3 + seq![':'] + b4,
        ) == (if a0 != b0 { text_lt(a0, b0) } else if a1 != b1 { text_lt(a1, b1) }
            else if a2 != b2 { text_lt(a2, b2) } else if a3 != b3 { text_lt(a3, b3) }
            else { text_lt(a4, b4) }),
{
    let ra4 = seq![':'] + a4;
    let rb4 = seq![':'] + b4;
    let ra3 = a3 + ra4;
    let rb3 = b3 + rb4;
    let sa3 = seq![' '] + ra3;
    let sb3 = seq![' '] + rb3;
    let ra2 = a2 + sa3;
    let rb2 = b2 + sb3;
    let sa2 = seq!['-'] + ra2;
    let sb2 = seq!['-'] + rb2;
    let ra1 = a1 + sa2;
    let rb1 = b1 + sb2;
    let sa1 = seq!['-'] + ra1;
    let sb1 = seq!['-'] + rb1;
    assert(a0 + seq!['-'] + a1 + seq!['-'] + a2 + seq![' '] + a3 + seq![':'] + a4 =~= a0 + sa1);
    assert(b0 + seq!['-'] + b1 + seq!['-'] + b2 + seq![' '] + b3 + seq![':'] + b4 =~= b0 + sb1);
    lemma_text_lt_concat(a0, sa1, b0, sb1);
    lemma_text_lt_concat(seq!['-'], ra1, seq!['-'], rb1);
    lemma_text_lt_concat(a1, sa2, b1, sb2);
    lemma_text_lt_concat(seq!['-'], ra2, seq!['-'], rb2);
    lemma_text_lt_concat(a2, sa3, b2, sb3);
    lemma_text_lt_concat(seq![' '], ra3, seq![' '], rb3);
    lemma_text_lt_concat(a3, ra4, b3, rb4);
    lemma_text_lt_concat(seq![':'], a4, seq![':'], b4);
}

/// Dates that can be written in full (years up to 9999) compare as their
/// texts do.
pub proof fn lemma_date_text_order_fields(x: (u16, u8, u8, u8, u8), y: (u16, u8, u8, u8, u8))
    requires fields_valid(x), fields_valid(y), x.0 <= 9999, y.0 <= 9999,
    ensures fields_lt(x, y) <==> text_lt(spec_date_text(x), spec_date_text(y)),
{
    assert(decimal_digits(x.0 as nat).len() <= 4 && decimal_digits(y.0 as nat).len() <= 4) by {
        lemma_decimal_digits(x.0 as nat);
        lemma_decimal_digits(y.0 as nat);
    }
    assert(decimal_digits(x.1 as nat).len() <= 2 && decimal_digits(y.1 as nat).len() <= 2) by {
        lemma_decimal_digits(x.1 as nat);
        lemma_decimal_digits(y.1 as nat);
    }
    assert(decimal_digits(x.2 as nat).len() <= 2 && decimal_digits(y.2 as nat).len() <= 2) by {
        lemma_decimal_digits(x.2 as nat);
        lemma_decimal_digits(y.2 as nat);
    }
    assert(decimal_digits(x.3 as nat).len() <= 2 && decimal_digits(y.3 as nat).len() <= 2) by {
        lemma_decimal_digits(x.3 as nat);
        lemma_decimal_digits(y.3 as nat);
    }
    assert(decimal_digits(x.4 as nat).len() <= 2 && decimal_digits(y.4 as nat).len() <= 2) by {
        lemma_decimal_digits(x.4 as nat);
        lemma_decimal_digits(y.4 as nat);
    }
    lemma_field_text_order(x.0 as nat, y.0 as nat, 4);
    lemma_field_text_order(x.1 as nat, y.1 as nat, 2);
    lemma_field_text_order(x.2 as nat, y.2 as nat, 2);
    lemma_field_text_order(x.3 as nat, y.3 as nat, 2);
    lemma_field_text_order(x.4 as nat, y.4 as nat, 2);
    lemma_five_field_order(
        zero_padded(x.0 as nat, 4), zero_padded(x.1 as nat, 2), zero_padded(x.2 as nat, 2),
        zero_padded(x.3 as nat, 2), zero_padded(x.4 as nat, 2),
        zero_padded(y.0 as nat, 4), zero_padded(y.1 as nat, 2), zero_padded(y.2 as nat, 2),
        zero_padded(y.3 as nat, 2), zero_padded(y.4 as nat, 2),
    );
}

/// Dates written in full compare as their texts do: reading two such texts
/// gives dates in the same order as the texts.
pub proof fn lemma_date_text_order(a: Seq<char>, b: Seq<char>)
    requires
        is_date_text(a),
        is_date_text(b),
        spec_date_from_str(a) is Ok,
        spec_date_from_str(b) is Ok,
    ensures
        fields_lt(spec_date_from_str(a)->Ok_0, spec_date_from_str(b)->Ok_0) <==> text_lt(a, b),
        spec_date_from_str(a)->Ok_0 == spec_date_from_str(b)->Ok_0 <==> a == b,
{
    let x = spec_date_from_str(a)->Ok_0;
    let y = spec_date_from_str(b)->Ok_0;
    lemma_date_text_canonical(a);
    lemma_date_text_canonical(b);
    lemma_digit_run(a, 0, 4);
    lemma_digit_run(b, 0, 4);
    lemma_field_fits(a.subrange(0, 4));
    lemma_field_fits(b.subrange(0, 4));
    assert(x.0 <= 9999) by {
        lemma_split_date_fields(a.subrange(0, 4), a.subrange(5, 7), a.subrange(8, 10), a.subrange(11, 13), a.subrange(14, 16));
        lemma_digit_run(a, 5, 7);
        lemma_digit_run(a, 8, 10);
        lemma_digit_run(a, 11, 13);
        lemma_digit_run(a, 14, 16);
        assert(a =~= a.subrange(0, 4) + seq!['-'] + a.subrange(5, 7) + seq!['-'] + a.subrange(8, 10)
            + seq![' '] + a.subrange(11, 13) + seq![':'] + a.subrange(14, 16));
    }
    assert(y.0 <= 9999) by {
        lemma_split_date_fields(b.subrange(0, 4), b.subrange(5, 7), b.subrange(8, 10), b.subrange(11, 13), b.subrange(14, 16));
        lemma_digit_run(b, 5, 7);
        lemma_digit_run(b, 8, 10);
        lemma_digit_run(b, 11, 13);
        lemma_digit_run(b, 14, 16);
        assert(b =~= b.subrange(0, 4) + seq!['-'] + b.subrange(5, 7) + seq!['-'] + b.subrange(8, 10)
            + seq![' '] + b.subrange(11, 13) + seq![':'] + b.subrange(14, 16));
    }
    lemma_date_text_order_fields(x, y);
}


/// Whether `p` maps `0..n` one to one onto itself.
pub open spec fn is_permutation(p: spec_fn(int) -> int, n: int) -> bool {
    &&& forall|k: int| 0 <= k < n ==> 0 <= #[trigger] p(k) < n
    &&& forall|k: int, l: int| 0 <= k < n && 0 <= l < n && #[trigger] p(k) == #[trigger] p(l) ==> k == l
    &&& forall|u: int| 0 <= u < n ==> #[trigger] is_image_of(p, n, u)
}

/// Whether `p` maps some `k` in `0..n` to `u`.
pub open spec fn is_image_of(p: spec_fn(int) -> int, n: int, u: int) -> bool {
    exists|k: int| 0 <= k < n && #[trigger] p(k) == u
}

/// Whether `users2` is `users` in another order: user `k` of `users2` is
/// user `p(k)` of `users`, with the same slots in any order.
pub open spec fn is_reordering(users: Seq<Seq<TimeSlot>>, users2: Seq<Seq<TimeSlot>>, p: spec_fn(int) -> int) -> bool {
    &&& users2.len() == users.len()
    &&& is_permutation(p, users.len() as int)
    &&& forall|k: int| 0 <= k < users.len() ==> (#[trigger] users2[k]).to_multiset() == users[p(k)].to_multiset()
}

/// A sequence whose items are those of `s` taken in another order holds the
/// same items as often.
proof fn lemma_reindex_multiset<A>(s: Seq<A>, t: Seq<A>, p: spec_fn(int) -> int)
    requires
        t.len() == s.len(),
        forall|k: int| 0 <= k < s.len() ==> 0 <= #[trigger] p(k) < s.len(),
        forall|k: int, l: int| 0 <= k < s.len() && 0 <= l < s.len() && #[trigger] p(k) == #[trigger] p(l) ==> k == l,
        forall|k: int| 0 <= k < s.len() ==> #[trigger] t[k] == s[p(k)],
    ensures t.to_multiset() == s.to_multiset(),
    decreases s.len(),
{
    broadcast use vstd::seq_lib::group_to_multiset_ensures, vstd::multiset::group_multiset_axioms;
    if s.len() == 0 {
        assert(t =~= s);
    } else {
        let n = s.len() as int;
        let j = p(n - 1);
        let s2 = s.remove(j);
        let t2 = t.drop_last();
        let p2 = |k: int| if p(k) < j { p(k) } else { p(k) - 1 };
        assert forall|k: int| 0 <= k < s2.len() implies 0 <= #[trigger] p2(k) < s2.len() by {
            if p(k) == j {
                assert(k == n - 1);
            }
        }
        assert forall|k: int, l: int| 0 <= k < s2.len() && 0 <= l < s2.len() && #[trigger] p2(k) == #[trigger] p2(l)
            implies k == l by {
            if p(k) == j {
                assert(k == n - 1);
            }
            if p(l) == j {
                assert(l == n - 1);
            }
        }
        assert forall|k: int| 0 <= k < s2.len() implies #[trigger] t2[k] == s2[p2(k)] by {
            assert(t2[k] == t[k]);
            if p(k) == j {
                assert(k == n - 1);
            }
        }
        lemma_reindex_multiset(s2, t2, p2);
        assert(t =~= t2.push(t[n - 1]));
        assert(t[n - 1] == s[j]);
        assert(s.to_multiset().count(s[j]) > 0);
        assert(s.to_multiset().remove(s[j]).insert(s[j]) =~= s.to_multiset());
    }
}

/// How many users are free for `w`, counted as a number of items.
proof fn lemma_attendance_count(users: Seq<Seq<TimeSlot>>, w: TimeSlot)
    ensures
        attendance(users, w)
            == users.map_values(|s: Seq<TimeSlot>| free_during(s, w)).to_multiset().count(true),
    decreases users.len(),
{
    broadcast use vstd::seq_lib::group_to_multiset_ensures, vstd::multiset::group_multiset_axioms;
    let b = users.map_values(|s: Seq<TimeSlot>| free_during(s, w));
    if users.len() == 0 {
        assert(b =~= Seq::<bool>::empty());
    } else {
        lemma_attendance_count(users.drop_last(), w);
        assert(b =~= users.drop_last().map_values(|s: Seq<TimeSlot>| free_during(s, w)).push(
            free_during(users.last(), w),
        ));
    }
}

proof fn lemma_reordering_facts(users: Seq<Seq<TimeSlot>>, users2: Seq<Seq<TimeSlot>>, p: spec_fn(int) -> int)
    requires is_reordering(users, users2, p),
    ensures
        forall|d: SimpleDate| is_boundary(users, d) <==> #[trigger] is_boundary(users2, d),
        forall|w: TimeSlot| attendance(users, w) == #[trigger] attendance(users2, w),
        forall|w: TimeSlot| is_window(users, w) <==> #[trigger] is_window(users2, w),
{
    broadcast use vstd::seq_lib::group_to_multiset_ensures;
    let n = users.len() as int;
    assert forall|k: int, x: TimeSlot| 0 <= k < n implies
        (#[trigger] users2[k].contains(x) <==> users[p(k)].contains(x)) by {
        assert(users2[k].to_multiset().count(x) == users[p(k)].to_multiset().count(x));
    }
    assert forall|d: SimpleDate| is_boundary(users, d) <==> #[trigger] is_boundary(users2, d) by {
        if is_boundary(users, d) {
            let (u, i) = choose|u: int, i: int| 0 <= u < users.len() && 0 <= i < users[u].len()
                && #[trigger] is_end_of(users[u][i], d);
            assert(is_image_of(p, n, u));
            let k = choose|k: int| 0 <= k < n && #[trigger] p(k) == u;
            assert(users[p(k)].contains(users[u][i]));
            assert(users2[k].contains(users[u][i]));
            let m = choose|m: int| 0 <= m < users2[k].len() && #[trigger] users2[k][m] == users[u][i];
            assert(is_end_of(users2[k][m], d));
        }
        if is_boundary(users2, d) {
            let (k, i) = choose|k: int, i: int| 0 <= k < users2.len() && 0 <= i < users2[k].len()
                && #[trigger] is_end_of(users2[k][i], d);
            assert(users2[k].contains(users2[k][i]));
            assert(users[p(k)].contains(users2[k][i]));
            let m = choose|m: int| 0 <= m < users[p(k)].len() && #[trigger] users[p(k)][m] == users2[k][i];
            assert(is_end_of(users[p(k)][m], d));
        }
    }
    assert forall|w: TimeSlot| attendance(users, w) == #[trigger] attendance(users2, w) by {
        let b = users.map_values(|s: Seq<TimeSlot>| free_during(s, w));
        let b2 = users2.map_values(|s: Seq<TimeSlot>| free_during(s, w));
        assert forall|k: int| 0 <= k < n implies #[trigger] b2[k] == b[p(k)] by {
            if free_during(users2[k], w) {
                let i = choose|i: int| 0 <= i < users2[k].len() && #[trigger] covers(users2[k][i], w);
                assert(users2[k].contains(users2[k][i]));
                let m = choose|m: int| 0 <= m < users[p(k)].len() && #[trigger] users[p(k)][m] == users2[k][i];
                assert(covers(users[p(k)][m], w));
            }
            if free_during(users[p(k)], w) {
                let i = choose|i: int| 0 <= i < users[p(k)].len() && #[trigger] covers(users[p(k)][i], w);
                assert(users[p(k)].contains(users[p(k)][i]));
                assert(users2[k].contains(users[p(k)][i]));
                let m = choose|m: int| 0 <= m < users2[k].len() && #[trigger] users2[k][m] == users[p(k)][i];
                assert(covers(users2[k][m], w));
            }
        }
        lemma_reindex_multiset(b, b2, p);
        lemma_attendance_count(users, w);
        lemma_attendance_count(users2, w);
    }
    assert forall|w: TimeSlot| is_window(users, w) <==> #[trigger] is_window(users2, w) by {
        assert(is_boundary(users, w.start) <==> is_boundary(users2, w.start));
        assert(is_boundary(users, w.end) <==> is_boundary(users2, w.end));
        if is_window(users, w) {
            assert forall|d: SimpleDate| #[trigger] is_boundary(users2, d)
                implies !(date_lt(w.start, d) && date_lt(d, w.end)) by {
                assert(is_boundary(users, d));
            }
        }
        if is_window(users2, w) {
            assert forall|d: SimpleDate| #[trigger] is_boundary(users, d)
                implies !(date_lt(w.start, d) && date_lt(d, w.end)) by {
                assert(is_boundary(users2, d));
            }
        }
    }
}
/// The ranking does not depend on the order of the users, nor on the order
/// of each user's slots: for users given in another order, the ranking is
/// the same sequence.
pub proof fn lemma_ranking_ignores_order(
    users: Seq<Seq<TimeSlot>>,
    users2: Seq<Seq<TimeSlot>>,
    p: spec_fn(int) -> int,
    r1: Seq<RankedSlot>,
    r2: Seq<RankedSlot>,
)
    requires
        is_reordering(users, users2, p),
        is_best_ranking(users, r1),
        is_best_ranking(users2, r2),
    ensures r1 == r2,
{
    lemma_reordering_facts(users, users2, p);
    assert(is_best_ranking(users2, r1)) by {
        assert forall|i: int| 0 <= i < r1.len() implies {
            &&& is_window(users2, (#[trigger] r1[i]).slot)
            &&& r1[i].attendance == attendance(users2, r1[i].slot)
            &&& r1[i].attendance > 0
        } by {
            assert(is_window(users, r1[i].slot));
            assert(attendance(users, r1[i].slot) == attendance(users2, r1[i].slot));
        }
        assert forall|w: TimeSlot| is_window(users2, w) && #[trigger] attendance(users2, w) > 0
            implies exists|i: int| 0 <= i < r1.len() && r1[i].slot == w by {
            assert(is_window(users, w));
            assert(attendance(users, w) == attendance(users2, w));
        }
    }
    lemma_best_ranking_unique(users2, r1, r2);
}


/// The rules for user names: a name is accepted exactly when it is not
/// empty, has no `|`, and is none of the words `DONE`, `LIST` and `BEST`;
/// an empty name is refused as empty, a name with `|` for the `|`, and a
/// command word as reserved.
pub proof fn lemma_user_name_rules(s: Seq<char>)
    ensures
        spec_validate_user_id(s) is Ok <==> (s.len() > 0 && !s.contains('|')
            && s != seq!['D', 'O', 'N', 'E'] && s != seq!['L', 'I', 'S', 'T']
            && s != seq!['B', 'E', 'S', 'T']),
        s.len() == 0 ==> spec_validate_user_id(s) == Err::<(), &'static str>(USER_EMPTY_ERROR),
        s.len() > 0 && s.contains('|') ==> spec_validate_user_id(s) == Err::<(), &'static str>(USER_PIPE_ERROR),
        s == seq!['D', 'O', 'N', 'E'] || s == seq!['L', 'I', 'S', 'T'] || s == seq!['B', 'E', 'S', 'T']
            ==> spec_validate_user_id(s) == Err::<(), &'static str>(USER_RESERVED_ERROR),
{
    if s == seq!['D', 'O', 'N', 'E'] || s == seq!['L', 'I', 'S', 'T'] || s == seq!['B', 'E', 'S', 'T'] {
        assert(s.len() == 4);
        assert(!s.contains('|')) by {
            if s.contains('|') {
                let i = choose|i: int| 0 <= i < s.len() && s[i] == '|';
            }
        }
    }
}

} // verus!
