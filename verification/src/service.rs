use vstd::prelude::*;
use crate::domain::{
    date_le, date_lt, find_best_availabilities, is_best_ranking, is_ranked, ranks_before,
    slot_lists, spec_validate_user_id, validate_user_id, RankedSlot, SimpleDate, SlotQuery,
    TimeSlot, UserAvailability, SLOT_ORDER_ERROR,
};
use crate::persistence::AvailabilityRepository;
use crate::text::{chars_of, lemma_text_lt_transitive, text_le, text_less, text_lt};

verus! {

/// Why a request to the service failed.
#[derive(Debug)]
pub enum ServiceError {
    /// The request was refused, with the reason.
    Validation(&'static str),
    /// The store could not be read or written.
    Io(std::io::Error),
}

/// The text in front of the store's own message in a storage error.
pub const STORAGE_ERROR_PREFIX: &'static str = "Storage error: ";

impl ServiceError {
    /// The text that tells the user what went wrong: the reason of a refusal
    /// as it stands, or `Storage error: ` followed by the text that the store's
    /// error displays as.
    pub fn message(&self) -> (s: String)
        ensures
            match self {
                ServiceError::Validation(m) => s@ == m@,
                ServiceError::Io(e) => exists|d: String|
                    vstd::string::to_string_from_display_ensures::<std::io::Error>(e, d)
                    && s@ == STORAGE_ERROR_PREFIX@ + d@,
            },
    {
        match self {
            ServiceError::Validation(m) => (*m).to_owned(),
            ServiceError::Io(e) => {
                let detail = e.to_string();
                let mut s = STORAGE_ERROR_PREFIX.to_owned();
                s.append(detail.as_str());
                s
            },
        }
    }
}

/// Whether `r` lies within the date bounds of `query`.
pub open spec fn within_query(r: RankedSlot, query: SlotQuery) -> bool {
    &&& (query.start_after matches Some(d) ==> date_le(d, r.slot.start))
    &&& (query.end_before matches Some(d) ==> date_le(r.slot.end, d))
}

/// The slots of `ranked` within the date bounds of `query`, in order.
pub open spec fn slots_within(ranked: Seq<RankedSlot>, query: SlotQuery) -> Seq<RankedSlot>
    decreases ranked.len(),
{
    if ranked.len() == 0 {
        Seq::empty()
    } else {
        let rest = slots_within(ranked.drop_last(), query);
        if within_query(ranked.last(), query) {
            rest.push(ranked.last())
        } else {
            rest
        }
    }
}

/// What a query keeps of `ranked`: the slots within its bounds, the first
/// `top_n` of them where it sets a limit.
pub open spec fn spec_apply_slot_query(ranked: Seq<RankedSlot>, query: SlotQuery) -> Seq<RankedSlot> {
    let kept = slots_within(ranked, query);
    match query.top_n {
        Some(n) => if n < kept.len() { kept.take(n as int) } else { kept },
        None => kept,
    }
}

proof fn lemma_slots_within_len(ranked: Seq<RankedSlot>, query: SlotQuery)
    ensures slots_within(ranked, query).len() <= ranked.len(),
    decreases ranked.len(),
{
    if ranked.len() > 0 {
        lemma_slots_within_len(ranked.drop_last(), query);
    }
}

fn is_within_query(r: &RankedSlot, query: &SlotQuery) -> (b: bool)
    ensures b == within_query(*r, *query),
{
    let after_ok = match query.start_after {
        Some(d) => !r.slot.start.is_before(&d),
        None => true,
    };
    let before_ok = match query.end_before {
        Some(d) => !d.is_before(&r.slot.end),
        None => true,
    };
    after_ok && before_ok
}

/// Keeps the slots that `query` asks for, in their order.
pub fn apply_slot_query(ranked: Vec<RankedSlot>, query: &SlotQuery) -> (r: Vec<RankedSlot>)
    ensures
        r@ == spec_apply_slot_query(ranked@, *query),
        forall|i: int| 0 <= i < r@.len() ==> {
            &&& ranked@.contains(#[trigger] r@[i])
            &&& query.start_after matches Some(d) ==> date_le(d, r@[i].slot.start)
            &&& query.end_before matches Some(d) ==> date_le(r@[i].slot.end, d)
        },
        query.top_n is None ==> forall|x: RankedSlot| #[trigger] ranked@.contains(x)
            && (query.start_after matches Some(d) ==> date_le(d, x.slot.start))
            && (query.end_before matches Some(d) ==> date_le(x.slot.end, d))
            ==> r@.contains(x),
        query.top_n matches Some(n) ==> r@.len() <= n,
{
    proof {
        lemma_query_keeps_dates(ranked@, *query);
    }
    let mut kept: Vec<RankedSlot> = Vec::new();
    for i in 0..ranked.len()
        invariant kept@ == slots_within(ranked@.take(i as int), *query),
    {
        assert(ranked@.take(i + 1).drop_last() =~= ranked@.take(i as int));
        let item = ranked[i];
        if is_within_query(&item, query) {
            kept.push(item);
        }
    }
    assert(ranked@.take(ranked@.len() as int) =~= ranked@);
    match query.top_n {
        Some(n) => {
            if n < kept.len() {
                kept.truncate(n);
            }
        },
        None => {},
    }
    kept
}

/// The users' slot lists, as `find_best_availabilities` takes them.
pub open spec fn user_slot_lists(users: Seq<UserAvailability>) -> Seq<Seq<TimeSlot>> {
    users.map_values(|u: UserAvailability| u.free_slots@)
}

fn slices_of(users: &Vec<UserAvailability>) -> (s: Vec<&[TimeSlot]>)
    ensures slot_lists(s@) == user_slot_lists(users@),
{
    let mut s: Vec<&[TimeSlot]> = Vec::new();
    for i in 0..users.len()
        invariant
            s@.len() == i,
            forall|j: int| 0 <= j < i ==> (#[trigger] s@[j])@ == users@[j].free_slots@,
    {
        s.push(users[i].free_slots.as_slice());
    }
    assert(slot_lists(s@) =~= user_slot_lists(users@));
    s
}


/// The best slots for `users` that `query` asks for: the ranking of all their
/// windows, cut down by the query.
pub fn rank_availabilities(users: &Vec<UserAvailability>, query: &SlotQuery) -> (r: Vec<RankedSlot>)
    ensures
        exists|ranked: Seq<RankedSlot>|
            is_best_ranking(user_slot_lists(users@), ranked)
            && r@ == spec_apply_slot_query(ranked, *query),
{
    let slices = slices_of(users);
    let ranked = find_best_availabilities(slices);
    apply_slot_query(ranked, query)
}

/// The names of `users`, as a sequence of texts.
pub open spec fn user_names(users: Seq<UserAvailability>) -> Seq<Seq<char>> {
    users.map_values(|u: UserAvailability| u.user_id@)
}

/// The texts of `names`.
pub open spec fn texts(names: Seq<String>) -> Seq<Seq<char>> {
    names.map_values(|s: String| s@)
}

/// Whether `names` is in the order of strings.
pub open spec fn is_sorted_text(names: Seq<Seq<char>>) -> bool {
    forall|i: int, j: int| 0 <= i < j < names.len() ==> text_le(#[trigger] names[i], #[trigger] names[j])
}

/// Puts `name` into the sorted `names` at its place.
fn insert_sorted_name(names: &mut Vec<String>, name: String)
    requires is_sorted_text(texts(old(names)@)),
    ensures
        is_sorted_text(texts(final(names)@)),
        texts(final(names)@).to_multiset() == texts(old(names)@).to_multiset().insert(name@),
{
    let key = chars_of(name.as_str());
    let mut p: usize = 0;
    while p < names.len() && !text_less(key.as_slice(), chars_of(names[p].as_str()).as_slice())
        invariant
            p <= names.len(),
            key@ == name@,
            forall|i: int| 0 <= i < p ==> text_le(#[trigger] texts(names@)[i], name@),
        decreases names.len() - p,
    {
        p = p + 1;
    }
    let ghost old_t = texts(names@);
    names.insert(p, name);
    proof {
        assert(texts(names@) =~= old_t.insert(p as int, name@));
        broadcast use vstd::seq_lib::to_multiset_insert;
        let t = texts(names@);
        assert forall|i: int, j: int| 0 <= i < j < t.len() implies text_le(#[trigger] t[i], #[trigger] t[j]) by {
            if j < p {
            } else if i < p && j == p {
            } else if i < p {
                assert(text_le(old_t[i], old_t[j - 1]));
            } else if i == p {
                assert(text_lt(name@, old_t[p as int]));
                if j - 1 > p {
                    assert(text_le(old_t[p as int], old_t[j - 1]));
                }
                if text_lt(old_t[j - 1], name@) {
                    lemma_text_lt_transitive(old_t[j - 1], name@, old_t[p as int]);
                    if j - 1 > p {
                        lemma_text_lt_transitive(old_t[p as int], old_t[j - 1], old_t[p as int]);
                        crate::text::lemma_text_lt_irreflexive(old_t[p as int]);
                    } else {
                        crate::text::lemma_text_lt_irreflexive(old_t[p as int]);
                    }
                }
            } else {
                assert(text_le(old_t[i - 1], old_t[j - 1]));
            }
        }
    }
}

/// The names of `users`, sorted.
pub fn sorted_user_ids(users: &Vec<UserAvailability>) -> (r: Vec<String>)
    ensures
        texts(r@).to_multiset() == user_names(users@).to_multiset(),
        is_sorted_text(texts(r@)),
{
    let mut names: Vec<String> = Vec::new();
    proof {
        broadcast use vstd::seq_lib::group_to_multiset_ensures;
        assert(texts(names@) =~= Seq::<Seq<char>>::empty());
        assert(user_names(users@).take(0) =~= Seq::<Seq<char>>::empty());
        assert(texts(names@).to_multiset() =~= user_names(users@).take(0).to_multiset());
    }
    for i in 0..users.len()
        invariant
            texts(names@).to_multiset() == user_names(users@).take(i as int).to_multiset(),
            is_sorted_text(texts(names@)),
    {
        let name = users[i].user_id.clone();
        proof {
            assert(user_names(users@).take(i + 1) =~= user_names(users@).take(i as int).push(name@));
            broadcast use vstd::seq_lib::group_to_multiset_ensures;
        }
        insert_sorted_name(&mut names, name);
    }
    assert(user_names(users@).take(users@.len() as int) =~= user_names(users@));
    names
}


/// The service layer: coordinates domain logic and persistence.
pub struct RehearsalService<R: AvailabilityRepository> {
    repo: R,
}

impl<R: AvailabilityRepository> RehearsalService<R> {
    /// The store that the service reads and writes.
    pub closed spec fn repository(&self) -> R {
        self.repo
    }

    /// A service over `repo`.
    pub fn new(repo: R) -> (s: Self)
        ensures s.repository() == repo,
    {
        RehearsalService { repo }
    }

    /// Records that `user_id` is free from `start` to `end`. Refused, before
    /// the store is touched, for a user name that `validate_user_id` refuses
    /// (with its message) and for a slot that does not start before it ends;
    /// otherwise the store is asked to keep the slot, and fails only where it
    /// does.
    pub fn add_slot(&mut self, user_id: String, start: SimpleDate, end: SimpleDate) -> (r: Result<(), ServiceError>)
        ensures
            final(self).repository() == old(self).repository(),
            spec_validate_user_id(user_id@) matches Err(m) ==> (r matches Err(ServiceError::Validation(e)) && e == m),
            spec_validate_user_id(user_id@) is Ok && !date_lt(start, end)
                ==> (r matches Err(ServiceError::Validation(e)) && e == SLOT_ORDER_ERROR),
            spec_validate_user_id(user_id@) is Ok && date_lt(start, end)
                ==> (r is Ok || r matches Err(ServiceError::Io(_))),
    {
        match validate_user_id(user_id.as_str()) {
            Ok(()) => {},
            Err(m) => { return Err(ServiceError::Validation(m)); },
        }
        let slot = match TimeSlot::new(start, end) {
            Ok(s) => s,
            Err(m) => { return Err(ServiceError::Validation(m)); },
        };
        match self.repo.save_slot(user_id.as_str(), slot) {
            Ok(()) => Ok(()),
            Err(e) => Err(ServiceError::Io(e)),
        }
    }

    /// The best slots that `query` asks for, over everything in the store;
    /// fails only where the store cannot be read.
    pub fn get_best_slots(&self, query: SlotQuery) -> (r: Result<Vec<RankedSlot>, ServiceError>)
        ensures
            r matches Ok(v) ==> exists|users: Seq<UserAvailability>, ranked: Seq<RankedSlot>|
                is_best_ranking(user_slot_lists(users), ranked)
                && v@ == spec_apply_slot_query(ranked, query),
            r matches Err(e) ==> e is Io,
    {
        match self.repo.load_all() {
            Ok(users) => {
                let v = rank_availabilities(&users, &query);
                Ok(v)
            },
            Err(e) => Err(ServiceError::Io(e)),
        }
    }

    /// The names of all users in the store, sorted; fails only where the
    /// store cannot be read.
    pub fn get_all_users(&self) -> (r: Result<Vec<String>, ServiceError>)
        ensures
            r matches Ok(v) ==> exists|users: Seq<UserAvailability>|
                texts(v@).to_multiset() == user_names(users).to_multiset()
                && is_sorted_text(texts(v@)),
            r matches Err(e) ==> e is Io,
    {
        match self.repo.load_all() {
            Ok(users) => Ok(sorted_user_ids(&users)),
            Err(e) => Err(ServiceError::Io(e)),
        }
    }
}


proof fn lemma_slots_within(ranked: Seq<RankedSlot>, query: SlotQuery)
    ensures
        forall|i: int| 0 <= i < slots_within(ranked, query).len() ==>
            within_query(#[trigger] slots_within(ranked, query)[i], query)
            && ranked.contains(slots_within(ranked, query)[i]),
        is_ranked(ranked) ==> is_ranked(slots_within(ranked, query)),
    decreases ranked.len(),
{
    if ranked.len() > 0 {
        let prev = ranked.drop_last();
        lemma_slots_within(prev, query);
        let s = slots_within(ranked, query);
        let sp = slots_within(prev, query);
        assert forall|i: int| 0 <= i < sp.len() implies ranked.contains(#[trigger] sp[i]) by {
            let j = choose|j: int| 0 <= j < prev.len() && prev[j] == sp[i];
            assert(ranked[j] == sp[i]);
        }
        if is_ranked(ranked) {
            assert(is_ranked(prev)) by {
                assert forall|i: int, j: int| 0 <= i < j < prev.len() implies ranks_before(#[trigger] prev[i], #[trigger] prev[j]) by {
                    assert(ranks_before(ranked[i], ranked[j]));
                }
            }
            if within_query(ranked.last(), query) {
                assert forall|i: int, j: int| 0 <= i < j < s.len() implies ranks_before(#[trigger] s[i], #[trigger] s[j]) by {
                    if j == s.len() - 1 {
                        let k = choose|k: int| 0 <= k < prev.len() && prev[k] == sp[i];
                        assert(ranks_before(ranked[k], ranked[ranked.len() - 1]));
                    } else {
                        assert(s[i] == sp[i] && s[j] == sp[j]);
                    }
                }
            }
        }
    }
}

/// What a query keeps of a ranking: slots of the ranking, in ranking order,
/// each within the query's dates; as many of those within its dates as there
/// are, up to the limit where it sets one.
pub proof fn lemma_query_result(ranked: Seq<RankedSlot>, query: SlotQuery)
    ensures
        forall|i: int| 0 <= i < spec_apply_slot_query(ranked, query).len() ==>
            within_query(#[trigger] spec_apply_slot_query(ranked, query)[i], query)
            && ranked.contains(spec_apply_slot_query(ranked, query)[i]),
        is_ranked(ranked) ==> is_ranked(spec_apply_slot_query(ranked, query)),
        spec_apply_slot_query(ranked, query).len() == match query.top_n {
            Some(n) => if n < slots_within(ranked, query).len() { n as nat } else { slots_within(ranked, query).len() },
            None => slots_within(ranked, query).len(),
        },
{
    lemma_slots_within(ranked, query);
    let s = slots_within(ranked, query);
    let r = spec_apply_slot_query(ranked, query);
    assert forall|i: int| 0 <= i < r.len() implies
        within_query(#[trigger] r[i], query) && ranked.contains(r[i]) by {
        assert(r[i] == s[i]);
    }
    if is_ranked(ranked) {
        assert forall|i: int, j: int| 0 <= i < j < r.len() implies ranks_before(#[trigger] r[i], #[trigger] r[j]) by {
            assert(r[i] == s[i] && r[j] == s[j]);
        }
    }
}


proof fn lemma_slots_within_complete(ranked: Seq<RankedSlot>, query: SlotQuery, x: RankedSlot)
    requires
        ranked.contains(x),
        query.start_after matches Some(d) ==> date_le(d, x.slot.start),
        query.end_before matches Some(d) ==> date_le(x.slot.end, d),
    ensures slots_within(ranked, query).contains(x),
    decreases ranked.len(),
{
    let prev = ranked.drop_last();
    if ranked.last() == x {
        assert(slots_within(ranked, query).last() == x);
        assert(slots_within(ranked, query).contains(slots_within(ranked, query)[slots_within(ranked, query).len() - 1]));
    } else {
        let i = choose|i: int| 0 <= i < ranked.len() && ranked[i] == x;
        assert(prev[i] == x);
        lemma_slots_within_complete(prev, query, x);
        let sp = slots_within(prev, query);
        let j = choose|j: int| 0 <= j < sp.len() && sp[j] == x;
        assert(slots_within(ranked, query)[j] == x);
    }
}

/// What a query keeps respects its dates: every slot kept is a slot of the
/// ranking that starts at or after its start bound and ends at or before its
/// end bound; at most `top_n` slots are kept; and without a limit every slot
/// of the ranking within the bounds is kept.
pub proof fn lemma_query_keeps_dates(ranked: Seq<RankedSlot>, query: SlotQuery)
    ensures
        forall|i: int| 0 <= i < spec_apply_slot_query(ranked, query).len() ==> {
            &&& ranked.contains(#[trigger] spec_apply_slot_query(ranked, query)[i])
            &&& query.start_after matches Some(d)
                ==> date_le(d, spec_apply_slot_query(ranked, query)[i].slot.start)
            &&& query.end_before matches Some(d)
                ==> date_le(spec_apply_slot_query(ranked, query)[i].slot.end, d)
        },
        query.top_n is None ==> forall|x: RankedSlot| #[trigger] ranked.contains(x)
            && (query.start_after matches Some(d) ==> date_le(d, x.slot.start))
            && (query.end_before matches Some(d) ==> date_le(x.slot.end, d))
            ==> spec_apply_slot_query(ranked, query).contains(x),
        query.top_n matches Some(n) ==> spec_apply_slot_query(ranked, query).len() <= n,
{
    lemma_query_result(ranked, query);
    let r = spec_apply_slot_query(ranked, query);
    assert forall|i: int| 0 <= i < r.len() implies {
        &&& ranked.contains(#[trigger] r[i])
        &&& query.start_after matches Some(d) ==> date_le(d, r[i].slot.start)
        &&& query.end_before matches Some(d) ==> date_le(r[i].slot.end, d)
    } by {
        assert(within_query(r[i], query));
    }
    if query.top_n is None {
        assert forall|x: RankedSlot| #[trigger] ranked.contains(x)
            && (query.start_after matches Some(d) ==> date_le(d, x.slot.start))
            && (query.end_before matches Some(d) ==> date_le(x.slot.end, d))
            implies r.contains(x) by {
            lemma_slots_within_complete(ranked, query, x);
        }
    }
}

} // verus!
