use vstd::prelude::*;
use crate::domain::{
    date_lt, date_separators, date_with_fields, fields_lt, fields_valid,
    lemma_date_text_round_trip, lemma_date_with_fields, spec_date_from_str, spec_date_text,
    SimpleDate, TimeSlot, UserAvailability,
};
use crate::text::{
    chars_of, is_digit, lemma_split_plain_tail, lemma_split_sep_tail, split_by, split_chars,
    string_from_chars,
};

verus! {

#[verifier::external_type_specification]
#[verifier::external_body]
pub struct ExIoError(std::io::Error);

/// Where the availability of the users is kept.
pub trait AvailabilityRepository {
    /// Everything kept, one entry per user.
    fn load_all(&self) -> std::io::Result<Vec<UserAvailability>>;

    /// Replaces what is kept by `availabilities`.
    fn save_all(&self, availabilities: &[UserAvailability]) -> std::io::Result<()>;

    /// Adds `slot` to the free slots of `user_id`.
    fn save_slot(&self, user_id: &str, slot: TimeSlot) -> std::io::Result<()>;
}

/// A user's name and free slots, as texts and values.
pub type UserEntry = (Seq<char>, Seq<TimeSlot>);

/// The entries of `users`, in order.
pub open spec fn entries(users: Seq<UserAvailability>) -> Seq<UserEntry> {
    users.map_values(|u: UserAvailability| (u.user_id@, u.free_slots@))
}

/// The position of the first entry named `name`, if any.
pub open spec fn first_named(entries: Seq<UserEntry>, name: Seq<char>) -> Option<int>
    decreases entries.len(),
{
    if entries.len() == 0 {
        None
    } else if entries[0].0 == name {
        Some(0)
    } else {
        match first_named(entries.drop_first(), name) {
            Some(i) => Some(i + 1),
            None => None,
        }
    }
}

/// `first_named` finds the first entry with the name, and none if there is
/// no such entry.
pub proof fn lemma_first_named(entries: Seq<UserEntry>, name: Seq<char>)
    ensures
        match first_named(entries, name) {
            Some(i) => 0 <= i < entries.len() && entries[i].0 == name
                && forall|j: int| 0 <= j < i ==> (#[trigger] entries[j]).0 != name,
            None => forall|j: int| 0 <= j < entries.len() ==> (#[trigger] entries[j]).0 != name,
        },
    decreases entries.len(),
{
    if entries.len() > 0 && entries[0].0 != name {
        let rest = entries.drop_first();
        lemma_first_named(rest, name);
        match first_named(rest, name) {
            Some(i) => {
                assert forall|j: int| 0 <= j < i + 1 implies (#[trigger] entries[j]).0 != name by {
                    if j > 0 {
                        assert(entries[j] == rest[j - 1]);
                    }
                }
                assert(entries[i + 1] == rest[i]);
            },
            None => {
                assert forall|j: int| 0 <= j < entries.len() implies (#[trigger] entries[j]).0 != name by {
                    if j > 0 {
                        assert(entries[j] == rest[j - 1]);
                    }
                }
            },
        }
    }
}

/// The entries after `slot` is added for `name`: to the first entry with that
/// name, or as a new entry at the end.
pub open spec fn with_slot(entries: Seq<UserEntry>, name: Seq<char>, slot: TimeSlot) -> Seq<UserEntry> {
    match first_named(entries, name) {
        Some(i) => entries.update(i, (name, entries[i].1.push(slot))),
        None => entries.push((name, seq![slot])),
    }
}

/// Adds `slot` to the free slots of `user_id`, as a new user at the end if
/// there is none of that name.
pub fn add_slot_for_user(availabilities: &mut Vec<UserAvailability>, user_id: &str, slot: TimeSlot)
    ensures entries(final(availabilities)@) == with_slot(entries(old(availabilities)@), user_id@, slot),
{
    let name = user_id.to_owned();
    let ghost e = entries(availabilities@);
    let mut i: usize = 0;
    while i < availabilities.len()
        invariant
            i <= availabilities.len(),
            e == entries(availabilities@),
            e == entries(old(availabilities)@),
            name@ == user_id@,
            forall|j: int| 0 <= j < i ==> (#[trigger] e[j]).0 != name@,
        decreases availabilities.len() - i,
    {
        if availabilities[i].user_id == name {
            let mut user = availabilities.remove(i);
            user.free_slots.push(slot);
            availabilities.insert(i, user);
            proof {
                lemma_first_named(e, name@);
                assert(e[i as int].0 == name@);
                assert(first_named(e, name@) == Some(i as int));
                assert(entries(availabilities@) =~= with_slot(e, name@, slot));
            }
            return;
        }
        i = i + 1;
    }
    let user = UserAvailability { user_id: name, free_slots: vec![slot] };
    availabilities.push(user);
    proof {
        lemma_first_named(e, user_id@);
        assert(first_named(e, user_id@) is None);
        assert(user.free_slots@ =~= seq![slot]);
        assert(entries(availabilities@) =~= with_slot(e, user_id@, slot));
    }
}


/// How one slot of a user is written in the store: `name|start|end`.
pub open spec fn spec_record_text(name: Seq<char>, slot: TimeSlot) -> Seq<char> {
    name + seq!['|'] + spec_date_text(slot.start@) + seq!['|'] + spec_date_text(slot.end@)
}

/// What a line of the store gives: a name and a slot where it is three
/// fields apart at `|`, the second and third read as dates, and the first of
/// them comes before the other; nothing otherwise.
pub open spec fn spec_parse_record(line: Seq<char>) -> Option<(Seq<char>, TimeSlot)> {
    let f = split_by(line, set!['|']);
    if f.len() == 3 && spec_date_from_str(f[1]) is Ok && spec_date_from_str(f[2]) is Ok
        && fields_lt(spec_date_from_str(f[1])->Ok_0, spec_date_from_str(f[2])->Ok_0) {
        Some((f[0], TimeSlot {
            start: date_with_fields(spec_date_from_str(f[1])->Ok_0),
            end: date_with_fields(spec_date_from_str(f[2])->Ok_0),
        }))
    } else {
        None
    }
}

/// Writes one slot of a user as a line of the store (without the newline).
pub fn format_record(user_id: &str, slot: &TimeSlot) -> (s: String)
    ensures s@ == spec_record_text(user_id@, *slot),
{
    let mut v = chars_of(user_id);
    v.push('|');
    let mut start = slot.start.text_chars();
    v.append(&mut start);
    v.push('|');
    let mut end = slot.end.text_chars();
    v.append(&mut end);
    assert(v@ =~= spec_record_text(user_id@, *slot));
    string_from_chars(v.as_slice())
}

/// Reads a line of the store (without its line break).
pub fn parse_record(line: &[char]) -> (r: Option<(String, TimeSlot)>)
    ensures
        match spec_parse_record(line@) {
            Some((name, slot)) => r matches Some((n, s)) && n@ == name && s == slot,
            None => r is None,
        },
{
    let seps = ['|'];
    let parts = split_chars(line, &seps);
    proof {
        assert(seps@.to_set() =~= set!['|']) by {
            assert(seps@[0] == '|');
        }
    }
    assert(parts.deep_view().len() == parts@.len());
    if parts.len() != 3 {
        return None;
    }
    assert(parts[0]@ == parts.deep_view()[0]);
    assert(parts[1]@ == parts.deep_view()[1]);
    assert(parts[2]@ == parts.deep_view()[2]);
    let start = match SimpleDate::from_chars(parts[1].as_slice()) {
        Ok(d) => d,
        Err(_) => { return None; },
    };
    let end = match SimpleDate::from_chars(parts[2].as_slice()) {
        Ok(d) => d,
        Err(_) => { return None; },
    };
    let slot = match TimeSlot::new(start, end) {
        Ok(s) => s,
        Err(_) => { return None; },
    };
    let name = string_from_chars(parts[0].as_slice());
    proof {
        lemma_date_with_fields(start, start@);
        lemma_date_with_fields(end, end@);
    }
    Some((name, slot))
}

/// The lines of a store's text, as `BufRead::lines` gives them: split at
/// `\n`, each line that a `\n` ends losing a `\r` before it. (A last, empty
/// piece after a final `\n` is kept; it holds no record.)
pub open spec fn store_lines(content: Seq<char>) -> Seq<Seq<char>> {
    let p = split_by(content, set!['\n']);
    Seq::new(p.len(), |i: int| if i + 1 < p.len() { without_cr(p[i]) } else { p[i] })
}

/// `line` without a `\r` at its end.
pub open spec fn without_cr(line: Seq<char>) -> Seq<char> {
    if line.len() > 0 && line.last() == '\r' { line.drop_last() } else { line }
}

/// The records of `lines`, in order; lines that are not records are skipped.
pub open spec fn store_records(lines: Seq<Seq<char>>) -> Seq<(Seq<char>, TimeSlot)>
    decreases lines.len(),
{
    if lines.len() == 0 {
        Seq::empty()
    } else {
        let rest = store_records(lines.drop_last());
        match spec_parse_record(lines.last()) {
            Some(r) => rest.push(r),
            None => rest,
        }
    }
}

/// The entries that `records` add up to: each slot goes to the first entry
/// with its name, names in the order they first appear.
pub open spec fn group_records(records: Seq<(Seq<char>, TimeSlot)>) -> Seq<UserEntry>
    decreases records.len(),
{
    if records.len() == 0 {
        Seq::empty()
    } else {
        let rest = group_records(records.drop_last());
        with_slot(rest, records.last().0, records.last().1)
    }
}

/// What loading the store's text `content` gives.
pub open spec fn spec_load(content: Seq<char>) -> Seq<UserEntry> {
    group_records(store_records(store_lines(content)))
}

/// Reads the store's text: one record per line, malformed lines skipped,
/// slots grouped by user in the order the users first appear.
pub fn parse_availabilities(content: &str) -> (r: Vec<UserAvailability>)
    ensures entries(r@) == spec_load(content@),
{
    let chars = chars_of(content);
    let seps = ['\n'];
    let pieces = split_chars(chars.as_slice(), &seps);
    proof {
        assert(seps@.to_set() =~= set!['\n']) by {
            assert(seps@[0] == '\n');
        }
    }
    let ghost lines = store_lines(content@);
    assert(pieces.deep_view().len() == pieces@.len());
    let mut users: Vec<UserAvailability> = Vec::new();
    proof {
        assert(entries(users@) =~= group_records(store_records(lines.take(0))));
    }
    for i in 0..pieces.len()
        invariant
            lines == store_lines(content@),
            lines.len() == pieces@.len(),
            forall|k: int| 0 <= k < pieces@.len() ==> (#[trigger] pieces@[k])@ == pieces.deep_view()[k],
            pieces.deep_view() == split_by(chars@, set!['\n']),
            chars@ == content@,
            entries(users@) == group_records(store_records(lines.take(i as int))),
    {
        let piece: &Vec<char> = &pieces[i];
        let n = piece.len();
        let line: &[char] = if i + 1 < pieces.len() && n > 0 && piece[n - 1] == '\r' {
            let (head, _) = piece.as_slice().split_at(n - 1);
            head
        } else {
            piece.as_slice()
        };
        assert(line@ == lines[i as int]);
        assert(lines.take(i + 1).drop_last() =~= lines.take(i as int));
        assert(lines.take(i + 1).last() == lines[i as int]);
        let ghost prev = store_records(lines.take(i as int));
        match parse_record(line) {
            Some((name, slot)) => {
                add_slot_for_user(&mut users, name.as_str(), slot);
                proof {
                    let rec = spec_parse_record(line@)->Some_0;
                    assert(store_records(lines.take(i + 1)) == prev.push(rec));
                    assert(prev.push(rec).drop_last() =~= prev);
                }
            },
            None => {
                assert(store_records(lines.take(i + 1)) == prev);
            },
        }
    }
    assert(lines.take(pieces@.len() as int) =~= lines);
    users
}

/// The text of one user's slots in the store: a line per slot.
pub open spec fn user_text(name: Seq<char>, slots: Seq<TimeSlot>) -> Seq<char>
    decreases slots.len(),
{
    if slots.len() == 0 {
        Seq::empty()
    } else {
        user_text(name, slots.drop_last()) + spec_record_text(name, slots.last()) + seq!['\n']
    }
}

/// The text of the store: the lines of each user in turn.
pub open spec fn spec_store_text(es: Seq<UserEntry>) -> Seq<char>
    decreases es.len(),
{
    if es.len() == 0 {
        Seq::empty()
    } else {
        spec_store_text(es.drop_last()) + user_text(es.last().0, es.last().1)
    }
}

/// Writes the store's text for `availabilities`.
pub fn serialize_availabilities(availabilities: &[UserAvailability]) -> (s: String)
    ensures s@ == spec_store_text(entries(availabilities@)),
{
    let ghost es = entries(availabilities@);
    let mut out: Vec<char> = Vec::new();
    for u in 0..availabilities.len()
        invariant
            es == entries(availabilities@),
            out@ == spec_store_text(es.take(u as int)),
    {
        let user = &availabilities[u];
        let name = chars_of(user.user_id.as_str());
        let ghost before = out@;
        for k in 0..user.free_slots.len()
            invariant
                name@ == user.user_id@,
                out@ == before + user_text(name@, user.free_slots@.take(k as int)),
        {
            let mut record = chars_of(format_record(user.user_id.as_str(), &user.free_slots[k]).as_str());
            out.append(&mut record);
            out.push('\n');
            assert(user.free_slots@.take(k + 1).drop_last() =~= user.free_slots@.take(k as int));
            assert(out@ =~= before + user_text(name@, user.free_slots@.take(k + 1)));
        }
        assert(user.free_slots@.take(user.free_slots@.len() as int) =~= user.free_slots@);
        assert(es.take(u + 1).drop_last() =~= es.take(u as int));
        assert(out@ =~= spec_store_text(es.take(u + 1)));
    }
    assert(es.take(availabilities@.len() as int) =~= es);
    string_from_chars(out.as_slice())
}


/// Whether a slot can be written to the store and read back: it starts
/// before it ends, and both its years have at most four digits.
pub open spec fn storable_slot(slot: TimeSlot) -> bool {
    &&& date_lt(slot.start, slot.end)
    &&& fields_valid(slot.start@) && slot.start@.0 <= 9999
    &&& fields_valid(slot.end@) && slot.end@.0 <= 9999
}

/// Whether a name can be written to the store and read back: it holds
/// neither the field separator `|` nor a line break.
pub open spec fn storable_name(name: Seq<char>) -> bool {
    !name.contains('|') && !name.contains('\n')
}

proof fn lemma_date_text_plain(v: (u16, u8, u8, u8, u8))
    requires fields_valid(v), v.0 <= 9999,
    ensures
        forall|i: int| 0 <= i < spec_date_text(v).len() ==> {
            &&& #[trigger] spec_date_text(v)[i] != '|'
            &&& spec_date_text(v)[i] != '\n'
        },
        spec_date_text(v).len() == 16,
        is_digit(spec_date_text(v)[15]),
{
    lemma_date_text_round_trip(v);
    assert forall|i: int| 0 <= i < spec_date_text(v).len() implies {
        &&& #[trigger] spec_date_text(v)[i] != '|'
        &&& spec_date_text(v)[i] != '\n'
    } by {
        assert(is_digit(spec_date_text(v)[i]) || date_separators().contains(spec_date_text(v)[i]));
    }
    assert(is_digit(spec_date_text(v)[15]) || date_separators().contains(spec_date_text(v)[15]));
    assert(spec_date_text(v)[15] == crate::text::zero_padded(v.4 as nat, 2)[1]);
}

/// A slot written as a line of the store reads back as the same name and
/// slot, for a name and slot that the store can hold.
pub proof fn lemma_record_round_trip(name: Seq<char>, slot: TimeSlot)
    requires storable_name(name), storable_slot(slot),
    ensures spec_parse_record(spec_record_text(name, slot)) == Some((name, slot)),
{
    let s1 = spec_date_text(slot.start@);
    let s2 = spec_date_text(slot.end@);
    lemma_date_text_round_trip(slot.start@);
    lemma_date_text_round_trip(slot.end@);
    lemma_date_text_plain(slot.start@);
    lemma_date_text_plain(slot.end@);
    let seps = set!['|'];
    let e = Seq::<char>::empty();
    assert forall|i: int| 0 <= i < name.len() implies !seps.contains(#[trigger] name[i]) by {
        assert(name[i] != '|');
    }
    lemma_split_plain_tail(e, name, seps);
    assert(e + name =~= name);
    assert(split_by(e, seps) =~= seq![e]);
    assert(split_by(name, seps) =~= seq![name]);
    let t1 = name + seq!['|'];
    lemma_split_sep_tail(name, '|', seps);
    let t2 = t1 + s1;
    lemma_split_plain_tail(t1, s1, seps);
    assert(split_by(t2, seps) =~= seq![name, s1]);
    let t3 = t2 + seq!['|'];
    lemma_split_sep_tail(t2, '|', seps);
    let t4 = t3 + s2;
    lemma_split_plain_tail(t3, s2, seps);
    assert(split_by(t4, seps) =~= seq![name, s1, s2]);
    assert(t4 == spec_record_text(name, slot));
    lemma_date_with_fields(slot.start, slot.start@);
    lemma_date_with_fields(slot.end, slot.end@);
}

/// The records that `es` hold, entry after entry, slot after slot.
pub open spec fn entry_records(es: Seq<UserEntry>) -> Seq<(Seq<char>, TimeSlot)>
    decreases es.len(),
{
    if es.len() == 0 {
        Seq::empty()
    } else {
        entry_records(es.drop_last()) + es.last().1.map_values(|s: TimeSlot| (es.last().0, s))
    }
}

/// The text of `records`, a line each.
pub open spec fn records_text(rs: Seq<(Seq<char>, TimeSlot)>) -> Seq<char>
    decreases rs.len(),
{
    if rs.len() == 0 {
        Seq::empty()
    } else {
        records_text(rs.drop_last()) + spec_record_text(rs.last().0, rs.last().1) + seq!['\n']
    }
}

proof fn lemma_records_text_append(a: Seq<(Seq<char>, TimeSlot)>, b: Seq<(Seq<char>, TimeSlot)>)
    ensures records_text(a + b) == records_text(a) + records_text(b),
    decreases b.len(),
{
    if b.len() == 0 {
        assert(a + b =~= a);
        assert(records_text(a) + records_text(b) =~= records_text(a));
    } else {
        lemma_records_text_append(a, b.drop_last());
        assert((a + b).drop_last() =~= a + b.drop_last());
        assert((a + b).last() == b.last());
        let l = spec_record_text(b.last().0, b.last().1) + seq!['\n'];
        assert(records_text(a) + records_text(b.drop_last()) + spec_record_text(b.last().0, b.last().1) + seq!['\n']
            =~= records_text(a) + (records_text(b.drop_last()) + spec_record_text(b.last().0, b.last().1) + seq!['\n']));
    }
}

proof fn lemma_user_text(name: Seq<char>, slots: Seq<TimeSlot>)
    ensures user_text(name, slots) == records_text(slots.map_values(|s: TimeSlot| (name, s))),
    decreases slots.len(),
{
    if slots.len() > 0 {
        lemma_user_text(name, slots.drop_last());
        let m = slots.map_values(|s: TimeSlot| (name, s));
        assert(m.drop_last() =~= slots.drop_last().map_values(|s: TimeSlot| (name, s)));
    }
}

proof fn lemma_store_text_records(es: Seq<UserEntry>)
    ensures spec_store_text(es) == records_text(entry_records(es)),
    decreases es.len(),
{
    if es.len() > 0 {
        lemma_store_text_records(es.drop_last());
        let m = es.last().1.map_values(|s: TimeSlot| (es.last().0, s));
        lemma_user_text(es.last().0, es.last().1);
        lemma_records_text_append(entry_records(es.drop_last()), m);
    }
}

/// Whether every record of `rs` can be written to the store and read back.
pub open spec fn storable_records(rs: Seq<(Seq<char>, TimeSlot)>) -> bool {
    forall|i: int| 0 <= i < rs.len() ==> storable_name((#[trigger] rs[i]).0) && storable_slot(rs[i].1)
}

proof fn lemma_record_text_plain(name: Seq<char>, slot: TimeSlot)
    requires storable_name(name), storable_slot(slot),
    ensures
        forall|i: int| 0 <= i < spec_record_text(name, slot).len()
            ==> #[trigger] spec_record_text(name, slot)[i] != '\n',
        spec_record_text(name, slot).len() > 0,
        spec_record_text(name, slot).last() != '\r',
{
    lemma_date_text_plain(slot.start@);
    lemma_date_text_plain(slot.end@);
    let t = spec_record_text(name, slot);
    let s1 = spec_date_text(slot.start@);
    let s2 = spec_date_text(slot.end@);
    let n = name.len();
    assert forall|i: int| 0 <= i < t.len() implies #[trigger] t[i] != '\n' by {
        if i < n {
            assert(t[i] == name[i]);
        } else if n + 1 <= i < n + 17 {
            assert(t[i] == s1[i - n - 1]);
        } else if n + 18 <= i {
            assert(t[i] == s2[i - n - 18]);
        }
    }
    assert(t.last() == s2[15]);
}

/// The text of records splits back into their lines, and an empty piece
/// after the last line break.
proof fn lemma_split_records_text(rs: Seq<(Seq<char>, TimeSlot)>)
    requires storable_records(rs),
    ensures
        split_by(records_text(rs), set!['\n'])
            == rs.map_values(|r: (Seq<char>, TimeSlot)| spec_record_text(r.0, r.1)).push(Seq::empty()),
    decreases rs.len(),
{
    let seps = set!['\n'];
    if rs.len() == 0 {
        assert(split_by(Seq::<char>::empty(), seps) =~= seq![Seq::<char>::empty()]);
        assert(rs.map_values(|r: (Seq<char>, TimeSlot)| spec_record_text(r.0, r.1)).push(Seq::empty())
            =~= seq![Seq::<char>::empty()]);
    } else {
        let prev = rs.drop_last();
        assert(storable_records(prev)) by {
            assert forall|i: int| 0 <= i < prev.len() implies storable_name((#[trigger] prev[i]).0) && storable_slot(prev[i].1) by {
                assert(prev[i] == rs[i]);
            }
        }
        lemma_split_records_text(prev);
        let r = rs.last();
        assert(storable_name(rs[rs.len() - 1].0) && storable_slot(rs[rs.len() - 1].1));
        let l = spec_record_text(r.0, r.1);
        lemma_record_text_plain(r.0, r.1);
        let x = records_text(prev);
        lemma_split_plain_tail(x, l, seps);
        lemma_split_sep_tail(x + l, '\n', seps);
        assert(records_text(rs) == x + l + seq!['\n']);
        assert(split_by(records_text(rs), seps)
            =~= rs.map_values(|r: (Seq<char>, TimeSlot)| spec_record_text(r.0, r.1)).push(Seq::empty()));
    }
}


proof fn lemma_store_records_of_text(rs: Seq<(Seq<char>, TimeSlot)>)
    requires storable_records(rs),
    ensures store_records(store_lines(records_text(rs))) == rs,
{
    lemma_split_records_text(rs);
    let texts = rs.map_values(|r: (Seq<char>, TimeSlot)| spec_record_text(r.0, r.1));
    let lines = store_lines(records_text(rs));
    assert forall|i: int| 0 <= i < rs.len() implies lines[i] == #[trigger] texts[i] by {
        assert(storable_name(rs[i].0) && storable_slot(rs[i].1));
        lemma_record_text_plain(rs[i].0, rs[i].1);
    }
    assert(lines =~= texts.push(Seq::empty()));
    lemma_store_records_texts(rs, rs.len() as int);
    assert(texts.push(Seq::empty()).drop_last() =~= texts);
    assert(split_by(Seq::<char>::empty(), set!['|']) =~= seq![Seq::<char>::empty()]);
    assert(spec_parse_record(Seq::empty()) is None);
    assert(rs.take(rs.len() as int) =~= rs);
    assert(texts.take(rs.len() as int) =~= texts);
}

proof fn lemma_store_records_texts(rs: Seq<(Seq<char>, TimeSlot)>, n: int)
    requires storable_records(rs), 0 <= n <= rs.len(),
    ensures
        store_records(rs.map_values(|r: (Seq<char>, TimeSlot)| spec_record_text(r.0, r.1)).take(n))
            == rs.take(n),
    decreases n,
{
    let texts = rs.map_values(|r: (Seq<char>, TimeSlot)| spec_record_text(r.0, r.1));
    if n == 0 {
        assert(texts.take(0) =~= Seq::<Seq<char>>::empty());
        assert(rs.take(0) =~= Seq::<(Seq<char>, TimeSlot)>::empty());
    } else {
        lemma_store_records_texts(rs, n - 1);
        assert(texts.take(n).drop_last() =~= texts.take(n - 1));
        assert(texts.take(n).last() == texts[n - 1]);
        assert(storable_name(rs[n - 1].0) && storable_slot(rs[n - 1].1));
        lemma_record_round_trip(rs[n - 1].0, rs[n - 1].1);
        assert(rs.take(n) =~= rs.take(n - 1).push(rs[n - 1]));
    }
}

/// Whether `es` can be written to the store and read back unchanged: no two
/// entries share a name, every entry has a slot, and every name and slot can
/// be stored.
pub open spec fn storable_entries(es: Seq<UserEntry>) -> bool {
    &&& forall|i: int, j: int| 0 <= i < j < es.len() ==> (#[trigger] es[i]).0 != (#[trigger] es[j]).0
    &&& forall|i: int| 0 <= i < es.len() ==> (#[trigger] es[i]).1.len() > 0
    &&& forall|i: int| 0 <= i < es.len() ==> storable_name((#[trigger] es[i]).0)
    &&& forall|i: int, k: int| 0 <= i < es.len() && 0 <= k < es[i].1.len()
        ==> storable_slot(#[trigger] es[i].1[k])
}

/// Dropping the last entry keeps entries storable.
proof fn lemma_storable_prefix(es: Seq<UserEntry>)
    requires storable_entries(es), es.len() > 0,
    ensures storable_entries(es.drop_last()),
{
    let prev = es.drop_last();
    assert forall|i: int, k: int| 0 <= i < prev.len() && 0 <= k < prev[i].1.len()
        implies storable_slot(#[trigger] prev[i].1[k]) by {
        assert(prev[i] == es[i]);
    }
    assert forall|i: int| 0 <= i < prev.len() implies storable_name((#[trigger] prev[i]).0) by {
        assert(prev[i] == es[i]);
    }
    assert forall|i: int| 0 <= i < prev.len() implies (#[trigger] prev[i]).1.len() > 0 by {
        assert(prev[i] == es[i]);
    }
    assert forall|i: int, j: int| 0 <= i < j < prev.len() implies (#[trigger] prev[i]).0 != (#[trigger] prev[j]).0 by {
        assert(prev[i] == es[i]);
        assert(prev[j] == es[j]);
    }
}

proof fn lemma_entry_records_storable(es: Seq<UserEntry>)
    requires storable_entries(es),
    ensures storable_records(entry_records(es)),
    decreases es.len(),
{
    if es.len() > 0 {
        let prev = es.drop_last();
        lemma_storable_prefix(es);
        lemma_entry_records_storable(prev);
        let a = entry_records(prev);
        let last = es[es.len() - 1];
        let b = last.1.map_values(|s: TimeSlot| (last.0, s));
        assert forall|i: int| 0 <= i < (a + b).len() implies
            storable_name((#[trigger] (a + b)[i]).0) && storable_slot((a + b)[i].1) by {
            if i >= a.len() {
                assert((a + b)[i] == b[i - a.len()]);
                assert(storable_slot(es[es.len() - 1].1[i - a.len()]));
                assert(storable_name(es[es.len() - 1].0));
            } else {
                assert((a + b)[i] == a[i]);
            }
        }
    }
}

/// Grouping the records of one more user, whose name is new, adds that
/// user's entry at the end.
proof fn lemma_group_new_user(g: Seq<UserEntry>, base: Seq<(Seq<char>, TimeSlot)>, name: Seq<char>, slots: Seq<TimeSlot>, n: int)
    requires
        group_records(base) == g,
        forall|i: int| 0 <= i < g.len() ==> (#[trigger] g[i]).0 != name,
        1 <= n <= slots.len(),
    ensures
        group_records(base + slots.map_values(|s: TimeSlot| (name, s)).take(n))
            == g.push((name, slots.take(n))),
    decreases n,
{
    let m = slots.map_values(|s: TimeSlot| (name, s));
    let all = base + m.take(n);
    assert(all.drop_last() =~= base + m.take(n - 1));
    assert(all.last() == (name, slots[n - 1]));
    if n == 1 {
        assert(base + m.take(0) =~= base);
        crate::persistence::lemma_first_named(g, name);
        assert(first_named(g, name) is None);
        assert(seq![slots[0]] =~= slots.take(1));
    } else {
        lemma_group_new_user(g, base, name, slots, n - 1);
        let g2 = g.push((name, slots.take(n - 1)));
        lemma_first_named(g2, name);
        assert(g2[g.len() as int].0 == name);
        assert forall|j: int| 0 <= j < g.len() implies (#[trigger] g2[j]).0 != name by {
            assert(g2[j] == g[j]);
        }
        assert(first_named(g2, name) == Some(g.len() as int));
        assert(slots.take(n - 1).push(slots[n - 1]) =~= slots.take(n));
        assert(g2.update(g.len() as int, (name, slots.take(n))) =~= g.push((name, slots.take(n))));
    }
}

proof fn lemma_group_entry_records(es: Seq<UserEntry>)
    requires storable_entries(es),
    ensures group_records(entry_records(es)) == es,
    decreases es.len(),
{
    if es.len() == 0 {
        assert(group_records(Seq::<(Seq<char>, TimeSlot)>::empty()) =~= es);
    } else {
        let prev = es.drop_last();
        lemma_storable_prefix(es);
        lemma_group_entry_records(prev);
        let last = es[es.len() - 1];
        assert(last.1.len() > 0);
        assert forall|i: int| 0 <= i < prev.len() implies (#[trigger] prev[i]).0 != last.0 by {
            assert(prev[i] == es[i]);
        }
        lemma_group_new_user(prev, entry_records(prev), last.0, last.1, last.1.len() as int);
        let m = last.1.map_values(|s: TimeSlot| (last.0, s));
        assert(m.take(last.1.len() as int) =~= m);
        assert(last.1.take(last.1.len() as int) =~= last.1);
        assert(prev.push((last.0, last.1)) =~= es);
    }
}

/// What is written to the store is what is read back from it, for entries
/// that the store can hold: distinct names without `|` or line breaks,
/// each with at least one slot that starts before it ends and whose years
/// have at most four digits.
pub proof fn lemma_store_round_trip(es: Seq<UserEntry>)
    requires storable_entries(es),
    ensures spec_load(spec_store_text(es)) == es,
{
    lemma_store_text_records(es);
    lemma_entry_records_storable(es);
    lemma_store_records_of_text(entry_records(es));
    lemma_group_entry_records(es);
}


/// Adding a slot that the store can hold, for a name that it can hold, keeps
/// the entries storable; so a store that saves what `add_slot_for_user` gives
/// reads back the entries with the slot added.
pub proof fn lemma_saved_slot_reads_back(es: Seq<UserEntry>, name: Seq<char>, slot: TimeSlot)
    requires storable_entries(es), storable_name(name), storable_slot(slot),
    ensures
        storable_entries(with_slot(es, name, slot)),
        spec_load(spec_store_text(with_slot(es, name, slot))) == with_slot(es, name, slot),
{
    lemma_first_named(es, name);
    let w = with_slot(es, name, slot);
    match first_named(es, name) {
        Some(i) => {
            assert forall|j: int| 0 <= j < w.len() implies (#[trigger] w[j]).0 == es[j].0 && w[j].1.len() > 0 by {
                if j != i {
                    assert(w[j] == es[j]);
                }
            }
            assert forall|j: int, k: int| 0 <= j < w.len() && 0 <= k < w[j].1.len()
                implies storable_slot(#[trigger] w[j].1[k]) by {
                if j != i {
                    assert(w[j] == es[j]);
                } else if k < es[i].1.len() {
                    assert(w[j].1[k] == es[i].1[k]);
                }
            }
            assert forall|j: int, k: int| 0 <= j < k < w.len() implies (#[trigger] w[j]).0 != (#[trigger] w[k]).0 by {
                assert(w[j].0 == es[j].0 && w[k].0 == es[k].0);
            }
            assert forall|j: int| 0 <= j < w.len() implies storable_name((#[trigger] w[j]).0) by {
                assert(w[j].0 == es[j].0);
            }
        },
        None => {
            assert forall|j: int, k: int| 0 <= j < w.len() && 0 <= k < w[j].1.len()
                implies storable_slot(#[trigger] w[j].1[k]) by {
                if j < es.len() {
                    assert(w[j] == es[j]);
                }
            }
            assert forall|j: int, k: int| 0 <= j < k < w.len() implies (#[trigger] w[j]).0 != (#[trigger] w[k]).0 by {
                assert(w[j] == es[j]);
                if k < es.len() {
                    assert(w[k] == es[k]);
                }
            }
            assert forall|j: int| 0 <= j < w.len() implies storable_name((#[trigger] w[j]).0) && (#[trigger] w[j]).1.len() > 0 by {
                if j < es.len() {
                    assert(w[j] == es[j]);
                }
            }
        },
    }
    lemma_store_round_trip(w);
}

} // verus!
