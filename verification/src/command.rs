use vstd::prelude::*;
use crate::domain::{fields_lt, spec_date_from_str, spec_date_text, RankedSlot, SimpleDate, SlotQuery};
use crate::text::{
    decimal_digits, push_digits, chars_of, parse_decimal, parse_unsigned, same_chars, split_words, string_from_chars, words,
};

verus! {

/// A line of the prompt, read.
pub enum AppCommand {
    /// `<username> <start> <end>`: a free slot for a user.
    AddSlot { user: String, start: SimpleDate, end: SimpleDate },
    /// `LIST`: the users known.
    ListUsers,
    /// `BEST <n> [FILTER]`: the best `n` slots.
    GetBestSlots { n: usize, filter: Option<SlotFilter> },
    /// `DONE`: leave.
    Exit,
}

/// The date bounds that `BEST` may ask for.
pub enum SlotFilter {
    After(SimpleDate),
    Before(SimpleDate),
    Between(SimpleDate, SimpleDate),
}

/// Date fields `(year, month, day, hour, minute)`.
pub type DateFields = (u16, u8, u8, u8, u8);

/// A filter, with each date by its fields.
pub enum FilterModel {
    After(DateFields),
    Before(DateFields),
    Between(DateFields, DateFields),
}

/// A command, with the user name as text and each date by its fields.
pub enum CommandModel {
    AddSlot { user: Seq<char>, start: DateFields, end: DateFields },
    ListUsers,
    GetBestSlots { n: usize, filter: Option<FilterModel> },
    Exit,
}

pub open spec fn filter_model(f: SlotFilter) -> FilterModel {
    match f {
        SlotFilter::After(d) => FilterModel::After(d@),
        SlotFilter::Before(d) => FilterModel::Before(d@),
        SlotFilter::Between(a, b) => FilterModel::Between(a@, b@),
    }
}

pub open spec fn command_model(c: AppCommand) -> CommandModel {
    match c {
        AppCommand::AddSlot { user, start, end } => CommandModel::AddSlot { user: user@, start: start@, end: end@ },
        AppCommand::ListUsers => CommandModel::ListUsers,
        AppCommand::GetBestSlots { n, filter } => CommandModel::GetBestSlots {
            n,
            filter: match filter { Some(f) => Some(filter_model(f)), None => None },
        },
        AppCommand::Exit => CommandModel::Exit,
    }
}

pub const NO_INPUT_ERROR: &'static str = "No input provided";
pub const BEST_USAGE_ERROR: &'static str = "Usage: BEST <n> [FILTER]";
pub const BEST_NUMBER_ERROR: &'static str = "Invalid number for N";
pub const BEST_ZERO_ERROR: &'static str = "N must be greater than 0";
pub const BETWEEN_ORDER_ERROR: &'static str = "BETWEEN start date must be before or equal to end date";
pub const FILTER_ERROR: &'static str = "Invalid filter. Use AFTER <date>, BEFORE <date>, or BETWEEN <d1> AND <d2>";
pub const INPUT_ERROR: &'static str = "Invalid input. Use: <username> <start> <end>, LIST, BEST <n> [FILTER], or DONE";

/// The date that the words `day` and `time`, joined by a space, write; or
/// the date's refusal as text.
pub open spec fn date_of_words(day: Seq<char>, time: Seq<char>) -> Result<DateFields, Seq<char>> {
    match spec_date_from_str(day + seq![' '] + time) {
        Ok(v) => Ok(v),
        Err(m) => Err(m@),
    }
}

/// What the filter words of `BEST` (from the third word on) ask for.
pub open spec fn spec_filter(w: Seq<Seq<char>>) -> Result<Option<FilterModel>, Seq<char>> {
    if w.len() <= 2 {
        Ok(None)
    } else if w[2] == seq!['A', 'F', 'T', 'E', 'R'] && w.len() == 5 {
        match date_of_words(w[3], w[4]) {
            Ok(d) => Ok(Some(FilterModel::After(d))),
            Err(m) => Err(m),
        }
    } else if w[2] == seq!['B', 'E', 'F', 'O', 'R', 'E'] && w.len() == 5 {
        match date_of_words(w[3], w[4]) {
            Ok(d) => Ok(Some(FilterModel::Before(d))),
            Err(m) => Err(m),
        }
    } else if w[2] == seq!['B', 'E', 'T', 'W', 'E', 'E', 'N'] && w.len() == 8 && w[5] == seq!['A', 'N', 'D'] {
        match date_of_words(w[3], w[4]) {
            Err(m) => Err(m),
            Ok(d1) => match date_of_words(w[6], w[7]) {
                Err(m) => Err(m),
                Ok(d2) => if fields_lt(d2, d1) {
                    Err(BETWEEN_ORDER_ERROR@)
                } else {
                    Ok(Some(FilterModel::Between(d1, d2)))
                },
            },
        }
    } else {
        Err(FILTER_ERROR@)
    }
}

/// What a line of the prompt asks for, from its words: `DONE`, `LIST`,
/// `BEST <n> [FILTER]` or `<username> <date> <time> <date> <time>`; or the
/// refusal as text.
pub open spec fn spec_parse_command(input: Seq<char>) -> Result<CommandModel, Seq<char>> {
    let w = words(input);
    if w.len() == 0 {
        Err(NO_INPUT_ERROR@)
    } else if w[0] == seq!['D', 'O', 'N', 'E'] {
        Ok(CommandModel::Exit)
    } else if w[0] == seq!['L', 'I', 'S', 'T'] {
        Ok(CommandModel::ListUsers)
    } else if w[0] == seq!['B', 'E', 'S', 'T'] {
        if w.len() < 2 {
            Err(BEST_USAGE_ERROR@)
        } else {
            match parse_unsigned(w[1], usize::MAX as nat) {
                None => Err(BEST_NUMBER_ERROR@),
                Some(n) => if n == 0 {
                    Err(BEST_ZERO_ERROR@)
                } else {
                    match spec_filter(w) {
                        Ok(f) => Ok(CommandModel::GetBestSlots { n: n as usize, filter: f }),
                        Err(m) => Err(m),
                    }
                },
            }
        }
    } else if w.len() == 5 {
        match date_of_words(w[1], w[2]) {
            Err(m) => Err(m),
            Ok(s) => match date_of_words(w[3], w[4]) {
                Err(m) => Err(m),
                Ok(e) => Ok(CommandModel::AddSlot { user: w[0], start: s, end: e }),
            },
        }
    } else {
        Err(INPUT_ERROR@)
    }
}

/// The date written by `day` and `time` joined by a space.
fn date_from_words(day: &Vec<char>, time: &Vec<char>) -> (r: Result<SimpleDate, String>)
    ensures
        match date_of_words(day@, time@) {
            Ok(v) => r matches Ok(d) && d@ == v,
            Err(m) => r matches Err(e) && e@ == m,
        },
{
    let mut text: Vec<char> = Vec::new();
    let mut a = day.clone();
    text.append(&mut a);
    text.push(' ');
    let mut b = time.clone();
    text.append(&mut b);
    assert(text@ =~= day@ + seq![' '] + time@);
    match SimpleDate::from_chars(text.as_slice()) {
        Ok(d) => Ok(d),
        Err(m) => Err(m.to_owned()),
    }
}

fn message(m: &'static str) -> (s: String)
    ensures s@ == m@,
{
    m.to_owned()
}


fn is_keyword(w: &Vec<char>, kw: &[char]) -> (r: bool)
    ensures r == (w@ == kw@),
{
    same_chars(w.as_slice(), kw)
}

/// Reads the filter words of `BEST` (from the third word on).
fn parse_filter(w: &Vec<Vec<char>>) -> (r: Result<Option<SlotFilter>, String>)
    ensures
        match spec_filter(w.deep_view()) {
            Ok(f) => r matches Ok(g) && f == (match g { Some(x) => Some(filter_model(x)), None => None }),
            Err(m) => r matches Err(e) && e@ == m,
        },
{
    let ghost wv = w.deep_view();
    assert(wv.len() == w@.len());
    assert(forall|k: int| 0 <= k < w@.len() ==> (#[trigger] w@[k])@ == wv[k]);
    if w.len() <= 2 {
        return Ok(None);
    }
    let after = ['A', 'F', 'T', 'E', 'R'];
    let before = ['B', 'E', 'F', 'O', 'R', 'E'];
    let between = ['B', 'E', 'T', 'W', 'E', 'E', 'N'];
    let and = ['A', 'N', 'D'];
    assert(after@ =~= seq!['A', 'F', 'T', 'E', 'R']);
    assert(before@ =~= seq!['B', 'E', 'F', 'O', 'R', 'E']);
    assert(between@ =~= seq!['B', 'E', 'T', 'W', 'E', 'E', 'N']);
    assert(and@ =~= seq!['A', 'N', 'D']);
    if is_keyword(&w[2], &after) && w.len() == 5 {
        let d = date_from_words(&w[3], &w[4])?;
        Ok(Some(SlotFilter::After(d)))
    } else if is_keyword(&w[2], &before) && w.len() == 5 {
        let d = date_from_words(&w[3], &w[4])?;
        Ok(Some(SlotFilter::Before(d)))
    } else if is_keyword(&w[2], &between) && w.len() == 8 && is_keyword(&w[5], &and) {
        let d1 = date_from_words(&w[3], &w[4])?;
        let d2 = date_from_words(&w[6], &w[7])?;
        if d2.is_before(&d1) {
            return Err(message(BETWEEN_ORDER_ERROR));
        }
        Ok(Some(SlotFilter::Between(d1, d2)))
    } else {
        Err(message(FILTER_ERROR))
    }
}

/// Reads a line of the prompt.
pub fn parse_command(input: &str) -> (r: Result<AppCommand, String>)
    ensures
        match spec_parse_command(input@) {
            Ok(c) => r matches Ok(x) && command_model(x) == c,
            Err(m) => r matches Err(e) && e@ == m,
        },
{
    let chars = chars_of(input);
    let w = split_words(chars.as_slice());
    let ghost wv = w.deep_view();
    assert(wv.len() == w@.len());
    assert(forall|k: int| 0 <= k < w@.len() ==> (#[trigger] w@[k])@ == wv[k]);
    if w.len() == 0 {
        return Err(message(NO_INPUT_ERROR));
    }
    let done = ['D', 'O', 'N', 'E'];
    let list = ['L', 'I', 'S', 'T'];
    let best = ['B', 'E', 'S', 'T'];
    assert(done@ =~= seq!['D', 'O', 'N', 'E']);
    assert(list@ =~= seq!['L', 'I', 'S', 'T']);
    assert(best@ =~= seq!['B', 'E', 'S', 'T']);
    if is_keyword(&w[0], &done) {
        Ok(AppCommand::Exit)
    } else if is_keyword(&w[0], &list) {
        Ok(AppCommand::ListUsers)
    } else if is_keyword(&w[0], &best) {
        if w.len() < 2 {
            return Err(message(BEST_USAGE_ERROR));
        }
        let n = match parse_decimal(w[1].as_slice(), usize::MAX as u64) {
            Some(v) => v as usize,
            None => { return Err(message(BEST_NUMBER_ERROR)); },
        };
        if n == 0 {
            return Err(message(BEST_ZERO_ERROR));
        }
        let filter = parse_filter(&w)?;
        Ok(AppCommand::GetBestSlots { n, filter })
    } else if w.len() == 5 {
        let user = string_from_chars(w[0].as_slice());
        let start = date_from_words(&w[1], &w[2])?;
        let end = date_from_words(&w[3], &w[4])?;
        Ok(AppCommand::AddSlot { user, start, end })
    } else {
        Err(message(INPUT_ERROR))
    }
}


/// The query that `BEST n` with `filter` asks for: at most `n` slots,
/// within the filter's dates.
pub fn query_for(n: usize, filter: Option<SlotFilter>) -> (q: SlotQuery)
    ensures
        q.top_n == Some(n),
        q.start_after == (match filter {
            Some(SlotFilter::After(d)) => Some(d),
            Some(SlotFilter::Between(d, _)) => Some(d),
            _ => None,
        }),
        q.end_before == (match filter {
            Some(SlotFilter::Before(d)) => Some(d),
            Some(SlotFilter::Between(_, d)) => Some(d),
            _ => None,
        }),
{
    let query = SlotQuery::new().with_top_n(n);
    match filter {
        Some(SlotFilter::After(d)) => query.with_start_after(d),
        Some(SlotFilter::Before(d)) => query.with_end_before(d),
        Some(SlotFilter::Between(d1, d2)) => query.with_start_after(d1).with_end_before(d2),
        None => query,
    }
}

/// The answer when no slot fits.
pub const NO_SLOTS_LINE: &'static str = "\nNo overlapping rehearsal slots found for these criteria.";
/// The start of the heading of the answer.
pub const HEADING_START: &'static str = "\nTop ";
/// The end of the heading of the answer.
pub const HEADING_END: &'static str = " best rehearsal slots:";
/// What follows the number of a line of the answer.
pub const LINE_NUMBER_END: &'static str = ". ";
/// What stands between the start and the end of a slot.
pub const LINE_TO: &'static str = " to ";
/// What stands before the attendance of a slot.
pub const LINE_ATTENDANCE: &'static str = " (Attendance: ";
/// What ends a line of the answer.
pub const LINE_END: &'static str = " users)";

/// The line of the answer for `r`, the slot at position `i`:
/// `<i + 1>. <start> to <end> (Attendance: <n> users)`.
pub open spec fn spec_answer_line(i: int, r: RankedSlot) -> Seq<char> {
    decimal_digits((i + 1) as nat) + LINE_NUMBER_END@ + spec_date_text(r.slot.start@) + LINE_TO@
        + spec_date_text(r.slot.end@) + LINE_ATTENDANCE@ + decimal_digits(r.attendance as nat)
        + LINE_END@
}

/// The lines that answer `BEST` with the slots `ranked`: a line saying that
/// nothing fits; or a heading with their number, a line per slot, and an
/// empty line.
pub open spec fn spec_best_slots_report(ranked: Seq<RankedSlot>) -> Seq<Seq<char>> {
    if ranked.len() == 0 {
        seq![NO_SLOTS_LINE@]
    } else {
        seq![HEADING_START@ + decimal_digits(ranked.len()) + HEADING_END@]
            + Seq::new(ranked.len(), |i: int| spec_answer_line(i, ranked[i]))
            + seq![Seq::<char>::empty()]
    }
}

/// `n` in decimal.
fn decimal_text(n: u64) -> (s: String)
    ensures s@ == decimal_digits(n as nat),
{
    let mut v: Vec<char> = Vec::new();
    push_digits(&mut v, n);
    assert(v@ =~= decimal_digits(n as nat));
    string_from_chars(v.as_slice())
}

/// The line of the answer for `r`, the slot at position `i`.
fn answer_line(i: usize, r: &RankedSlot) -> (s: String)
    requires i < usize::MAX,
    ensures s@ == spec_answer_line(i as int, *r),
{
    let mut s = decimal_text((i + 1) as u64);
    s.append(LINE_NUMBER_END);
    s.append(r.slot.start.to_string().as_str());
    s.append(LINE_TO);
    s.append(r.slot.end.to_string().as_str());
    s.append(LINE_ATTENDANCE);
    s.append(decimal_text(r.attendance as u64).as_str());
    s.append(LINE_END);
    s
}

/// The lines that answer `BEST` with the slots `ranked`.
pub fn best_slots_report(ranked: &[RankedSlot]) -> (lines: Vec<String>)
    ensures lines@.map_values(|l: String| l@) == spec_best_slots_report(ranked@),
{
    let mut lines: Vec<String> = Vec::new();
    if ranked.len() == 0 {
        lines.push(message(NO_SLOTS_LINE));
        assert(lines@.map_values(|l: String| l@) =~= spec_best_slots_report(ranked@));
        return lines;
    }
    let mut heading = message(HEADING_START);
    heading.append(decimal_text(ranked.len() as u64).as_str());
    heading.append(HEADING_END);
    lines.push(heading);
    for i in 0..ranked.len()
        invariant
            lines@.len() == i + 1,
            lines@[0]@ == HEADING_START@ + decimal_digits(ranked@.len()) + HEADING_END@,
            forall|k: int| 0 <= k < i ==> (#[trigger] lines@[k + 1])@ == spec_answer_line(k, ranked@[k]),
    {
        let line = answer_line(i, &ranked[i]);
        lines.push(line);
    }
    lines.push(String::new());
    assert(lines@.map_values(|l: String| l@) =~= spec_best_slots_report(ranked@));
    lines
}


/// The answer to `LIST` when no user is known.
pub const NO_USERS_LINE: &'static str = "No users currently in the system.";
/// The start of the answer to `LIST`.
pub const USERS_HEADING: &'static str = "Current users: ";
/// What stands between two names in the answer to `LIST`.
pub const NAME_SEPARATOR: &'static str = ", ";

/// `names` joined, with `sep` between each two.
pub open spec fn joined(names: Seq<Seq<char>>, sep: Seq<char>) -> Seq<char>
    decreases names.len(),
{
    if names.len() == 0 {
        Seq::empty()
    } else if names.len() == 1 {
        names[0]
    } else {
        joined(names.drop_last(), sep) + sep + names.last()
    }
}

/// The answer to `LIST` for the sorted `names`: that no user is known, or
/// `Current users: ` and the names separated by `, `.
pub open spec fn spec_users_report(names: Seq<Seq<char>>) -> Seq<char> {
    if names.len() == 0 {
        NO_USERS_LINE@
    } else {
        USERS_HEADING@ + joined(names, NAME_SEPARATOR@)
    }
}

/// The answer to `LIST` for `names`.
pub fn users_report(names: &[String]) -> (s: String)
    ensures s@ == spec_users_report(names@.map_values(|n: String| n@)),
{
    let ghost texts = names@.map_values(|n: String| n@);
    if names.len() == 0 {
        return message(NO_USERS_LINE);
    }
    let mut list = names[0].clone();
    assert(texts.take(1).drop_last() =~= Seq::<Seq<char>>::empty());
    assert(joined(texts.take(1), NAME_SEPARATOR@) == texts[0]);
    for i in 1..names.len()
        invariant
            texts == names@.map_values(|n: String| n@),
            list@ == joined(texts.take(i as int), NAME_SEPARATOR@),
    {
        list.append(NAME_SEPARATOR);
        list.append(names[i].as_str());
        assert(texts.take(i + 1).drop_last() =~= texts.take(i as int));
        assert(texts.take(i + 1).last() == names@[i as int]@);
    }
    assert(texts.take(names@.len() as int) =~= texts);
    let mut s = message(USERS_HEADING);
    s.append(list.as_str());
    s
}


/// `DONE` and `LIST` as the first word leave and list, whatever follows.
pub proof fn lemma_plain_commands(input: Seq<char>)
    requires words(input).len() > 0,
    ensures
        words(input)[0] == seq!['D', 'O', 'N', 'E'] ==> spec_parse_command(input) == Ok::<CommandModel, Seq<char>>(CommandModel::Exit),
        words(input)[0] == seq!['L', 'I', 'S', 'T'] ==> spec_parse_command(input) == Ok::<CommandModel, Seq<char>>(CommandModel::ListUsers),
{
}

/// `BEST n` alone asks for the best `n` slots with no filter, for a number
/// `n` above zero.
pub proof fn lemma_best_command(input: Seq<char>)
    requires
        words(input).len() == 2,
        words(input)[0] == seq!['B', 'E', 'S', 'T'],
        parse_unsigned(words(input)[1], usize::MAX as nat) matches Some(n) && n > 0,
    ensures
        spec_parse_command(input) == Ok::<CommandModel, Seq<char>>(CommandModel::GetBestSlots {
            n: parse_unsigned(words(input)[1], usize::MAX as nat)->0 as usize,
            filter: None,
        }),
{
    assert(seq!['B', 'E', 'S', 'T'] != seq!['D', 'O', 'N', 'E']) by {
        assert(seq!['B', 'E', 'S', 'T'][0] != seq!['D', 'O', 'N', 'E'][0]);
    }
    assert(seq!['B', 'E', 'S', 'T'] != seq!['L', 'I', 'S', 'T']) by {
        assert(seq!['B', 'E', 'S', 'T'][0] != seq!['L', 'I', 'S', 'T'][0]);
    }
}

/// `BEST n AFTER <date>` keeps slots from the date written after `AFTER`,
/// and `BEST n BEFORE <date>` slots up to the date written after `BEFORE`.
pub proof fn lemma_after_before_command(input: Seq<char>)
    requires
        words(input).len() == 5,
        words(input)[0] == seq!['B', 'E', 'S', 'T'],
        parse_unsigned(words(input)[1], usize::MAX as nat) matches Some(n) && n > 0,
        spec_date_from_str(words(input)[3] + seq![' '] + words(input)[4]) is Ok,
    ensures
        words(input)[2] == seq!['A', 'F', 'T', 'E', 'R'] ==> spec_parse_command(input)
            == Ok::<CommandModel, Seq<char>>(CommandModel::GetBestSlots {
                n: parse_unsigned(words(input)[1], usize::MAX as nat)->0 as usize,
                filter: Some(FilterModel::After(
                    spec_date_from_str(words(input)[3] + seq![' '] + words(input)[4])->Ok_0,
                )),
            }),
        words(input)[2] == seq!['B', 'E', 'F', 'O', 'R', 'E'] ==> spec_parse_command(input)
            == Ok::<CommandModel, Seq<char>>(CommandModel::GetBestSlots {
                n: parse_unsigned(words(input)[1], usize::MAX as nat)->0 as usize,
                filter: Some(FilterModel::Before(
                    spec_date_from_str(words(input)[3] + seq![' '] + words(input)[4])->Ok_0,
                )),
            }),
{
    lemma_best_command_word();
    assert(seq!['B', 'E', 'F', 'O', 'R', 'E'] != seq!['A', 'F', 'T', 'E', 'R']) by {
        assert(seq!['B', 'E', 'F', 'O', 'R', 'E'].len() != seq!['A', 'F', 'T', 'E', 'R'].len());
    }
}

proof fn lemma_best_command_word()
    ensures
        seq!['B', 'E', 'S', 'T'] != seq!['D', 'O', 'N', 'E'],
        seq!['B', 'E', 'S', 'T'] != seq!['L', 'I', 'S', 'T'],
{
    assert(seq!['B', 'E', 'S', 'T'][0] != seq!['D', 'O', 'N', 'E'][0]);
    assert(seq!['B', 'E', 'S', 'T'][0] != seq!['L', 'I', 'S', 'T'][0]);
}

/// `BEST n BETWEEN <d1> AND <d2>` keeps slots from the date written after
/// `BETWEEN` up to the date written after `AND`; it is refused when the
/// first date comes after the second.
pub proof fn lemma_between_command(input: Seq<char>)
    requires
        words(input).len() == 8,
        words(input)[0] == seq!['B', 'E', 'S', 'T'],
        parse_unsigned(words(input)[1], usize::MAX as nat) matches Some(n) && n > 0,
        words(input)[2] == seq!['B', 'E', 'T', 'W', 'E', 'E', 'N'],
        words(input)[5] == seq!['A', 'N', 'D'],
        spec_date_from_str(words(input)[3] + seq![' '] + words(input)[4]) is Ok,
        spec_date_from_str(words(input)[6] + seq![' '] + words(input)[7]) is Ok,
    ensures
        ({
            let first = spec_date_from_str(words(input)[3] + seq![' '] + words(input)[4])->Ok_0;
            let second = spec_date_from_str(words(input)[6] + seq![' '] + words(input)[7])->Ok_0;
            &&& fields_lt(second, first) ==> spec_parse_command(input)
                == Err::<CommandModel, Seq<char>>(BETWEEN_ORDER_ERROR@)
            &&& !fields_lt(second, first) ==> spec_parse_command(input)
                == Ok::<CommandModel, Seq<char>>(CommandModel::GetBestSlots {
                    n: parse_unsigned(words(input)[1], usize::MAX as nat)->0 as usize,
                    filter: Some(FilterModel::Between(first, second)),
                })
        }),
{
    lemma_best_command_word();
    assert(seq!['B', 'E', 'T', 'W', 'E', 'E', 'N'] != seq!['A', 'F', 'T', 'E', 'R']) by {
        assert(seq!['B', 'E', 'T', 'W', 'E', 'E', 'N'].len() != seq!['A', 'F', 'T', 'E', 'R'].len());
    }
    assert(seq!['B', 'E', 'T', 'W', 'E', 'E', 'N'] != seq!['B', 'E', 'F', 'O', 'R', 'E']) by {
        assert(seq!['B', 'E', 'T', 'W', 'E', 'E', 'N'].len() != seq!['B', 'E', 'F', 'O', 'R', 'E'].len());
    }
}

/// `<user> <date> <time> <date> <time>` adds a slot for the first word,
/// from the date written by the second and third words to the one written
/// by the fourth and fifth, when the first word is no command.
pub proof fn lemma_add_slot_command(input: Seq<char>)
    requires
        words(input).len() == 5,
        words(input)[0] != seq!['D', 'O', 'N', 'E'],
        words(input)[0] != seq!['L', 'I', 'S', 'T'],
        words(input)[0] != seq!['B', 'E', 'S', 'T'],
        spec_date_from_str(words(input)[1] + seq![' '] + words(input)[2]) is Ok,
        spec_date_from_str(words(input)[3] + seq![' '] + words(input)[4]) is Ok,
    ensures
        spec_parse_command(input) == Ok::<CommandModel, Seq<char>>(CommandModel::AddSlot {
            user: words(input)[0],
            start: spec_date_from_str(words(input)[1] + seq![' '] + words(input)[2])->Ok_0,
            end: spec_date_from_str(words(input)[3] + seq![' '] + words(input)[4])->Ok_0,
        }),
{
}

} // verus!
