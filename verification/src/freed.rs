//! The price options that became bookable between two polls of the booking server.
use crate::availabilities::{court_all, day_all, items, lemma_items_forall, slot_all, Availabilities, ItemModel};
use crate::dates::{
    local_now, parse_date, parse_time, parsed_date, parsed_time, starts_within,
    starts_within_minutes, LocalDateTime, TimeOfDay,
};
use crate::legarden::{
    court_slots, court_with_slots, courts_model, day_with_courts, prices_model, slot_with_prices,
    slots_model, Court, CourtModel, DayModel, Price, PriceModel, Slot, SlotModel,
};
use crate::strmap::{keys_sorted, lemma_lookup_at, lemma_lookup_found, lookup};
use crate::text::seq_lt;
use vstd::prelude::*;

verus! {

/// A freed slot is notified only if it starts at least this many minutes from now.
pub const NB_MINUTES_THRESHOLD_FOR_NOTIF: i64 = 60;

/// `f` applied to the pairs `(a[i], b[i])` for `i < n`, keeping what it gives.
pub open spec fn zip_filter_map<A, B, C>(
    a: Seq<A>,
    b: Seq<B>,
    f: spec_fn(A, B) -> Option<C>,
    n: int,
) -> Seq<C>
    decreases n,
{
    if n <= 0 {
        Seq::empty()
    } else {
        let rest = zip_filter_map(a, b, f, n - 1);
        match f(a[n - 1], b[n - 1]) {
            Some(c) => rest.push(c),
            None => rest,
        }
    }
}

pub open spec fn min_len(x: nat, y: nat) -> int {
    if x <= y {
        x as int
    } else {
        y as int
    }
}

/// `f` applied to the pairs of `a` and `b` taken side by side, as far as the shorter goes.
pub open spec fn zip_keep<A, B, C>(a: Seq<A>, b: Seq<B>, f: spec_fn(A, B) -> Option<C>) -> Seq<C> {
    zip_filter_map(a, b, f, min_len(a.len(), b.len()))
}

/// A price option that was not bookable and now is: the new option.
pub open spec fn freed_price(o: PriceModel, n: PriceModel) -> Option<PriceModel> {
    if !o.bookable && n.bookable {
        Some(n)
    } else {
        None
    }
}

pub open spec fn price_step() -> spec_fn(PriceModel, PriceModel) -> Option<PriceModel> {
    |x: PriceModel, y: PriceModel| freed_price(x, y)
}

/// The freed options among the price options of a slot, old and new side by side.
pub open spec fn freed_prices(o: Seq<PriceModel>, n: Seq<PriceModel>) -> Seq<PriceModel> {
    zip_keep(o, n, price_step())
}

/// Whether the slot `s` of the day `day` counts: with no clock reading every slot counts;
/// with one, a slot counts when it starts at least `NB_MINUTES_THRESHOLD_FOR_NOTIF` minutes
/// after it.
pub open spec fn slot_open(now: Option<LocalDateTime>, day: Seq<char>, s: SlotModel) -> bool {
    match now {
        None => true,
        Some(t) => !starts_within(
            t,
            parsed_date(day).unwrap() as int,
            TimeOfDay {
                secs: parsed_time(s.start_at).unwrap().0,
                nanos: parsed_time(s.start_at).unwrap().1,
            },
            NB_MINUTES_THRESHOLD_FOR_NOTIF as int,
        ),
    }
}

/// A slot with freed options: the new slot with only those options.
pub open spec fn freed_slot(o: SlotModel, n: SlotModel, open: bool) -> Option<SlotModel> {
    if open {
        let p = freed_prices(o.prices, n.prices);
        if p.len() > 0 {
            Some(slot_with_prices(n, p))
        } else {
            None
        }
    } else {
        None
    }
}

pub open spec fn slot_step(now: Option<LocalDateTime>, day: Seq<char>) -> spec_fn(
    SlotModel,
    SlotModel,
) -> Option<SlotModel> {
    |x: SlotModel, y: SlotModel| freed_slot(x, y, slot_open(now, day, x))
}

/// The slots of a court with freed options, old and new slots side by side.
pub open spec fn freed_slots(
    o: Seq<SlotModel>,
    n: Seq<SlotModel>,
    now: Option<LocalDateTime>,
    day: Seq<char>,
) -> Seq<SlotModel> {
    zip_keep(o, n, slot_step(now, day))
}

/// A court with freed slots: the new court with only those slots.
pub open spec fn freed_court(
    o: CourtModel,
    n: CourtModel,
    now: Option<LocalDateTime>,
    day: Seq<char>,
) -> Option<CourtModel> {
    let s = freed_slots(court_slots(o), court_slots(n), now, day);
    if s.len() > 0 {
        Some(court_with_slots(n, s))
    } else {
        None
    }
}

pub open spec fn court_step(now: Option<LocalDateTime>, day: Seq<char>) -> spec_fn(
    CourtModel,
    CourtModel,
) -> Option<CourtModel> {
    |x: CourtModel, y: CourtModel| freed_court(x, y, now, day)
}

/// The courts of a day with freed slots, old and new courts side by side.
pub open spec fn freed_court_list(
    o: Seq<CourtModel>,
    n: Seq<CourtModel>,
    now: Option<LocalDateTime>,
    day: Seq<char>,
) -> Seq<CourtModel> {
    zip_keep(o, n, court_step(now, day))
}

/// A day of the old availabilities that the new ones also hold and that has freed courts:
/// the new day with only those courts.
pub open spec fn freed_day(
    e: (Seq<char>, DayModel),
    new: Seq<(Seq<char>, DayModel)>,
    now: Option<LocalDateTime>,
) -> Option<(Seq<char>, DayModel)> {
    match lookup(new, e.0) {
        Some(nd) => {
            let cs = freed_court_list(e.1.courts, nd.courts, now, e.0);
            if cs.len() > 0 {
                Some((e.0, day_with_courts(nd, cs)))
            } else {
                None
            }
        },
        None => None,
    }
}

pub open spec fn day_step(new: Seq<(Seq<char>, DayModel)>, now: Option<LocalDateTime>) -> spec_fn(
    (Seq<char>, DayModel),
) -> Option<(Seq<char>, DayModel)> {
    |e: (Seq<char>, DayModel)| freed_day(e, new, now)
}

/// What got freed from `old` to `new`: the days of `old`, in order, that `new` also holds and
/// where some price option went from not bookable to bookable, with only those options (and
/// the slots and courts that hold them) as `new` has them. With a clock reading `now`, the
/// slots that start less than `NB_MINUTES_THRESHOLD_FOR_NOTIF` minutes after it are left out.
pub open spec fn freed_days(
    old: Seq<(Seq<char>, DayModel)>,
    new: Seq<(Seq<char>, DayModel)>,
    now: Option<LocalDateTime>,
) -> Seq<(Seq<char>, DayModel)> {
    old.filter_map(day_step(new, now))
}

/// The time check of a slot can be made: with a clock reading, the day and the start time of
/// the slot can be read.
pub open spec fn slot_checkable(now: Option<LocalDateTime>, day: Seq<char>, s: SlotModel) -> bool {
    now is Some ==> parsed_date(day) is Some && parsed_time(s.start_at) is Some
}

pub open spec fn slots_checkable(
    now: Option<LocalDateTime>,
    day: Seq<char>,
    o: Seq<SlotModel>,
    n: Seq<SlotModel>,
) -> bool {
    forall|j: int| 0 <= j < min_len(o.len(), n.len()) ==> slot_checkable(now, day, #[trigger] o[j])
}

/// Two courts compared side by side have slots, and those can be checked.
pub open spec fn court_pair_checkable(
    now: Option<LocalDateTime>,
    day: Seq<char>,
    o: CourtModel,
    n: CourtModel,
) -> bool {
    &&& o.activities.len() > 0
    &&& n.activities.len() > 0
    &&& slots_checkable(now, day, court_slots(o), court_slots(n))
}

pub open spec fn courts_checkable(
    now: Option<LocalDateTime>,
    day: Seq<char>,
    o: Seq<CourtModel>,
    n: Seq<CourtModel>,
) -> bool {
    forall|j: int|
        0 <= j < min_len(o.len(), n.len()) ==> #[trigger] court_pair_checkable(now, day, o[j], n[j])
}

/// What the comparison of `old` and `new` reads can be read: the courts compared side by
/// side have slots and, with a clock reading, the days and start times of the slots compared
/// side by side can be read.
pub open spec fn days_checkable(
    now: Option<LocalDateTime>,
    old: Seq<(Seq<char>, DayModel)>,
    new: Seq<(Seq<char>, DayModel)>,
) -> bool {
    forall|i: int|
        0 <= i < old.len() ==> match lookup(new, (#[trigger] old[i]).0) {
            Some(nd) => courts_checkable(now, old[i].0, old[i].1.courts, nd.courts),
            None => true,
        }
}

/// Whether the slot starts less than `threshold_in_min` minutes after `now` (or has started).
pub fn is_slot_too_soon_or_already_passed(
    now: &LocalDateTime,
    slot_date: &str,
    slot: &Slot,
    threshold_in_min: i64,
) -> (r: bool)
    requires
        parsed_date(slot_date@) is Some,
        parsed_time(slot.start_at@) is Some,
    ensures
        r == starts_within(
            *now,
            parsed_date(slot_date@).unwrap() as int,
            TimeOfDay {
                secs: parsed_time(slot.start_at@).unwrap().0,
                nanos: parsed_time(slot.start_at@).unwrap().1,
            },
            threshold_in_min as int,
        ),
{
    let date = parse_date(slot_date);
    let time = parse_time(slot.start_at());
    match (date, time) {
        (Some(d), Some((secs, nanos))) => {
            starts_within_minutes(now, d, &TimeOfDay { secs, nanos }, threshold_in_min)
        },
        _ => false,
    }
}

fn freed_prices_of(old: &Vec<Price>, new: &Vec<Price>) -> (r: Vec<Price>)
    ensures
        prices_model(r@) == freed_prices(prices_model(old@), prices_model(new@)),
{
    let ghost om = prices_model(old@);
    let ghost nm = prices_model(new@);
    let n = if old.len() <= new.len() {
        old.len()
    } else {
        new.len()
    };
    let mut r: Vec<Price> = Vec::new();
    let mut i: usize = 0;
    while i < n
        invariant
            i <= n,
            n == min_len(om.len(), nm.len()),
            om == prices_model(old@),
            nm == prices_model(new@),
            prices_model(r@) == zip_filter_map(om, nm, price_step(), i as int),
        decreases n - i,
    {
        let ghost before = r@;
        if !old[i].bookable() && new[i].bookable() {
            r.push(new[i].clone());
            assert(prices_model(r@) =~= prices_model(before).push(nm[i as int]));
        }
        i = i + 1;
    }
    r
}

fn freed_slots_of(
    old: &Vec<Slot>,
    new: &Vec<Slot>,
    day: &str,
    now: Option<LocalDateTime>,
) -> (r: Vec<Slot>)
    requires
        slots_checkable(now, day@, slots_model(old@), slots_model(new@)),
    ensures
        slots_model(r@) == freed_slots(slots_model(old@), slots_model(new@), now, day@),
{
    let ghost om = slots_model(old@);
    let ghost nm = slots_model(new@);
    let n = if old.len() <= new.len() {
        old.len()
    } else {
        new.len()
    };
    let mut r: Vec<Slot> = Vec::new();
    let mut i: usize = 0;
    while i < n
        invariant
            i <= n,
            n == min_len(om.len(), nm.len()),
            om == slots_model(old@),
            nm == slots_model(new@),
            slots_checkable(now, day@, om, nm),
            slots_model(r@) == zip_filter_map(om, nm, slot_step(now, day@), i as int),
        decreases n - i,
    {
        let ghost before = r@;
        assert(slot_checkable(now, day@, om[i as int]));
        let open = match now {
            None => true,
            Some(t) => !is_slot_too_soon_or_already_passed(
                &t,
                day,
                &old[i],
                NB_MINUTES_THRESHOLD_FOR_NOTIF,
            ),
        };
        assert(open == slot_open(now, day@, om[i as int]));
        if open {
            let prices = freed_prices_of(&old[i].prices, &new[i].prices);
            if prices.len() > 0 {
                r.push(new[i].clone_with_prices(prices));
                assert(prices_model(prices@).len() > 0);
                assert(slots_model(r@) =~= slots_model(before).push(
                    slot_with_prices(nm[i as int], prices_model(prices@)),
                ));
            }
        }
        i = i + 1;
    }
    r
}

fn freed_courts_of(
    old: &Vec<Court>,
    new: &Vec<Court>,
    day: &str,
    now: Option<LocalDateTime>,
) -> (r: Vec<Court>)
    requires
        courts_checkable(now, day@, courts_model(old@), courts_model(new@)),
    ensures
        courts_model(r@) == freed_court_list(courts_model(old@), courts_model(new@), now, day@),
{
    let ghost om = courts_model(old@);
    let ghost nm = courts_model(new@);
    let n = if old.len() <= new.len() {
        old.len()
    } else {
        new.len()
    };
    let mut r: Vec<Court> = Vec::new();
    let mut i: usize = 0;
    while i < n
        invariant
            i <= n,
            n == min_len(om.len(), nm.len()),
            om == courts_model(old@),
            nm == courts_model(new@),
            courts_checkable(now, day@, om, nm),
            courts_model(r@) == zip_filter_map(om, nm, court_step(now, day@), i as int),
        decreases n - i,
    {
        let ghost before = r@;
        let ghost oc = om[i as int];
        let ghost nc = nm[i as int];
        assert(court_pair_checkable(now, day@, oc, nc));
        assert(old[i as int]@ == oc && new[i as int]@ == nc);
        let slots = freed_slots_of(old[i].slots(), new[i].slots(), day, now);
        if slots.len() > 0 {
            r.push(new[i].clone_with(slots));
            assert(slots_model(slots@).len() > 0);
            assert(courts_model(r@) =~= courts_model(before).push(
                court_with_slots(nm[i as int], slots_model(slots@)),
            ));
        }
        i = i + 1;
    }
    r
}

/// What got freed from `old` to `new`, with the slots too close to `now` left out when there
/// is a clock reading.
fn freed_days_of(
    new: &Availabilities,
    old: &Availabilities,
    now: Option<LocalDateTime>,
) -> (r: Availabilities)
    requires
        new.wf(),
        old.wf(),
        days_checkable(now, old@, new@),
    ensures
        r.wf(),
        r@ == freed_days(old@, new@, now),
{
    let mut freed = Availabilities::new();
    let n = old.len();
    let mut i: usize = 0;
    let ghost mut last: int = -1;
    while i < n
        invariant
            i <= n,
            n == old@.len(),
            new.wf(),
            old.wf(),
            days_checkable(now, old@, new@),
            freed.wf(),
            freed@ == old@.take(i as int).filter_map(day_step(new@, now)),
            -1 <= last < i,
            freed@.len() > 0 ==> 0 <= last && freed@.last().0 == old@[last].0,
        decreases n - i,
    {
        let ghost before = freed@;
        assert(old@.take(i + 1).drop_last() =~= old@.take(i as int));
        let day_str = old.date_at(i);
        match new.get(day_str.as_str()) {
            Some(new_day) => {
                let old_day = old.day_at(i);
                let courts = freed_courts_of(old_day.courts(), new_day.courts(), day_str.as_str(), now);
                if courts.len() > 0 {
                    assert(courts_model(courts@).len() > 0);
                    proof {
                        if before.len() > 0 {
                            assert(seq_lt(old@[last].0, old@[i as int].0));
                        }
                    }
                    freed.push(day_str.clone(), new_day.new_with(courts));
                    proof {
                        last = i as int;
                    }
                }
            },
            None => {},
        }
        i = i + 1;
    }
    assert(old@.take(n as int) =~= old@);
    freed
}

/// What got freed from `old` to `new`: the days of `old` that `new` also holds and where some
/// price option went from not bookable to bookable, with only those options (and the slots and
/// courts holding them) as `new` has them. Courts and slots are compared by position.
pub fn freed_courts(new: &Availabilities, old: &Availabilities) -> (r: Availabilities)
    requires
        new.wf(),
        old.wf(),
        days_checkable(None, old@, new@),
    ensures
        r.wf(),
        r@ == freed_days(old@, new@, None),
{
    freed_days_of(new, old, None)
}

/// What got freed from `old` to `new` that is worth a notification at `now`: as
/// `freed_courts`, leaving out the slots that start less than
/// `NB_MINUTES_THRESHOLD_FOR_NOTIF` minutes after `now` or have started.
pub fn freed_courts_at(new: &Availabilities, old: &Availabilities, now: &LocalDateTime) -> (r:
    Availabilities)
    requires
        new.wf(),
        old.wf(),
        days_checkable(Some(*now), old@, new@),
    ensures
        r.wf(),
        r@ == freed_days(old@, new@, Some(*now)),
{
    freed_days_of(new, old, Some(*now))
}


fn slots_checkable_of(
    old: &Vec<Slot>,
    new: &Vec<Slot>,
    day: &str,
    now: Option<LocalDateTime>,
) -> (r: bool)
    ensures
        r == slots_checkable(now, day@, slots_model(old@), slots_model(new@)),
{
    let ghost om = slots_model(old@);
    let ghost nm = slots_model(new@);
    let n = if old.len() <= new.len() {
        old.len()
    } else {
        new.len()
    };
    if now.is_none() || n == 0 {
        return true;
    }
    if parse_date(day).is_none() {
        assert(!slot_checkable(now, day@, om[0]));
        return false;
    }
    let mut j: usize = 0;
    while j < n
        invariant
            j <= n,
            n == min_len(om.len(), nm.len()),
            om == slots_model(old@),
            nm == slots_model(new@),
            now is Some,
            parsed_date(day@) is Some,
            forall|k: int| 0 <= k < j ==> slot_checkable(now, day@, #[trigger] om[k]),
        decreases n - j,
    {
        assert(om[j as int] == old@[j as int]@);
        if parse_time(old[j].start_at()).is_none() {
            assert(!slot_checkable(now, day@, om[j as int]));
            return false;
        }
        j = j + 1;
    }
    true
}

fn courts_checkable_of(
    old: &Vec<Court>,
    new: &Vec<Court>,
    day: &str,
    now: Option<LocalDateTime>,
) -> (r: bool)
    ensures
        r == courts_checkable(now, day@, courts_model(old@), courts_model(new@)),
{
    let ghost om = courts_model(old@);
    let ghost nm = courts_model(new@);
    let n = if old.len() <= new.len() {
        old.len()
    } else {
        new.len()
    };
    let mut j: usize = 0;
    while j < n
        invariant
            j <= n,
            n == min_len(om.len(), nm.len()),
            om == courts_model(old@),
            nm == courts_model(new@),
            forall|k: int| 0 <= k < j ==> #[trigger] court_pair_checkable(now, day@, om[k], nm[k]),
        decreases n - j,
    {
        let ghost oc = om[j as int];
        let ghost nc = nm[j as int];
        if old[j].activities.len() == 0 || new[j].activities.len() == 0 {
            assert(!court_pair_checkable(now, day@, oc, nc));
            return false;
        }
        assert(old@[j as int]@ == oc && new@[j as int]@ == nc);
        assert(oc.activities.len() == old@[j as int].activities@.len());
        assert(nc.activities.len() == new@[j as int].activities@.len());
        let os = old[j].slots();
        let ns = new[j].slots();
        assert(slots_model(os@) == court_slots(oc) && slots_model(ns@) == court_slots(nc));
        if !slots_checkable_of(os, ns, day, now) {
            assert(!court_pair_checkable(now, day@, oc, nc));
            return false;
        }
        assert(court_pair_checkable(now, day@, om[j as int], nm[j as int]));
        j = j + 1;
    }
    true
}

/// Whether the comparison of `old` and `new` can read what it reads (see `days_checkable`).
pub fn freed_inputs_checkable(
    new: &Availabilities,
    old: &Availabilities,
    now: Option<LocalDateTime>,
) -> (r: bool)
    requires
        new.wf(),
    ensures
        r == days_checkable(now, old@, new@),
{
    let n = old.len();
    let mut i: usize = 0;
    while i < n
        invariant
            i <= n,
            n == old@.len(),
            new.wf(),
            forall|k: int|
                0 <= k < i ==> match lookup(new@, (#[trigger] old@[k]).0) {
                    Some(nd) => courts_checkable(now, old@[k].0, old@[k].1.courts, nd.courts),
                    None => true,
                },
        decreases n - i,
    {
        let day_str = old.date_at(i);
        match new.get(day_str.as_str()) {
            Some(new_day) => {
                let old_day = old.day_at(i);
                if !courts_checkable_of(old_day.courts(), new_day.courts(), day_str.as_str(), now) {
                    return false;
                }
            },
            None => {},
        }
        i = i + 1;
    }
    true
}

/// `freed_courts_at` when the days and start times it reads can be read; nothing otherwise.
pub fn try_freed_courts_at(
    new: &Availabilities,
    old: &Availabilities,
    now: &LocalDateTime,
) -> (r: Option<Availabilities>)
    requires
        new.wf(),
        old.wf(),
    ensures
        match r {
            Some(a) => days_checkable(Some(*now), old@, new@) && a.wf() && a@ == freed_days(
                old@,
                new@,
                Some(*now),
            ),
            None => !days_checkable(Some(*now), old@, new@),
        },
{
    if freed_inputs_checkable(new, old, Some(*now)) {
        Some(freed_courts_at(new, old, now))
    } else {
        None
    }
}

/// What got freed from `old` to `new` that is worth a notification now, by the machine's
/// clock: `freed_courts_at` at the clock's reading, or nothing when a day or a start time it
/// reads cannot be read.
pub fn freed_courts_now(new: &Availabilities, old: &Availabilities) -> (r: Option<Availabilities>)
    requires
        new.wf(),
        old.wf(),
    ensures
        match r {
            Some(a) => a.wf() && exists|now: LocalDateTime|
                #[trigger] days_checkable(Some(now), old@, new@) && a@ == freed_days(
                    old@,
                    new@,
                    Some(now),
                ),
            None => exists|now: LocalDateTime| !#[trigger] days_checkable(Some(now), old@, new@),
        },
{
    let now = local_now();
    try_freed_courts_at(new, old, &now)
}

// ---------------------------------------------------------------- laws

/// `o` holds nothing, or something that satisfies `q`.
pub open spec fn opt_holds<C>(o: Option<C>, q: spec_fn(C) -> bool) -> bool {
    match o {
        Some(c) => q(c),
        None => true,
    }
}

/// Every element of `zip_filter_map(a, b, f, n)` satisfies `q` when every result of `f` on
/// the pairs does.
pub proof fn lemma_zip_forall<A, B, C>(
    a: Seq<A>,
    b: Seq<B>,
    f: spec_fn(A, B) -> Option<C>,
    n: int,
    q: spec_fn(C) -> bool,
)
    requires
        forall|i: int| 0 <= i < n ==> opt_holds(#[trigger] f(a[i], b[i]), q),
    ensures
        forall|t: int| 0 <= t < zip_filter_map(a, b, f, n).len() ==> q(#[trigger] zip_filter_map(a, b, f, n)[t]),
    decreases n,
{
    if n > 0 {
        lemma_zip_forall(a, b, f, n - 1, q);
        let rest = zip_filter_map(a, b, f, n - 1);
        let z = zip_filter_map(a, b, f, n);
        assert(opt_holds(f(a[n - 1], b[n - 1]), q));
        assert forall|t: int| 0 <= t < z.len() implies q(#[trigger] z[t]) by {
            if t < rest.len() {
                assert(z[t] == rest[t]);
            }
        }
    }
}

/// `zip_filter_map(a, b, f, n)` is empty when `f` keeps nothing of the pairs.
pub proof fn lemma_zip_none<A, B, C>(a: Seq<A>, b: Seq<B>, f: spec_fn(A, B) -> Option<C>, n: int)
    requires
        forall|i: int| 0 <= i < n ==> (#[trigger] f(a[i], b[i])) is None,
    ensures
        zip_filter_map(a, b, f, n).len() == 0,
    decreases n,
{
    if n > 0 {
        lemma_zip_none(a, b, f, n - 1);
        assert(f(a[n - 1], b[n - 1]) is None);
    }
}

/// Every element of `s.filter_map(f)` satisfies `q` when every result of `f` on `s` does.
pub proof fn lemma_filter_map_forall<A, B>(s: Seq<A>, f: spec_fn(A) -> Option<B>, q: spec_fn(B) -> bool)
    requires
        forall|i: int| 0 <= i < s.len() ==> opt_holds(#[trigger] f(s[i]), q),
    ensures
        forall|t: int| 0 <= t < s.filter_map(f).len() ==> q(#[trigger] s.filter_map(f)[t]),
    decreases s.len(),
{
    if s.len() > 0 {
        let p = s.drop_last();
        assert forall|i: int| 0 <= i < p.len() implies opt_holds(#[trigger] f(p[i]), q) by {
            assert(p[i] == s[i]);
            assert(opt_holds(f(s[i]), q));
        }
        lemma_filter_map_forall(p, f, q);
        assert(s.last() == s[s.len() - 1]);
        assert(opt_holds(f(s[s.len() - 1]), q));
        let rest = p.filter_map(f);
        let z = s.filter_map(f);
        assert forall|t: int| 0 <= t < z.len() implies q(#[trigger] z[t]) by {
            if t < rest.len() {
                assert(z[t] == rest[t]);
            }
        }
    }
}

/// `s.filter_map(f)` is `s` when `f` keeps every element of `s` as it is.
pub proof fn lemma_filter_map_identity<A>(s: Seq<A>, f: spec_fn(A) -> Option<A>)
    requires
        forall|i: int| 0 <= i < s.len() ==> #[trigger] f(s[i]) == Some(s[i]),
    ensures
        s.filter_map(f) == s,
    decreases s.len(),
{
    if s.len() > 0 {
        let p = s.drop_last();
        assert forall|i: int| 0 <= i < p.len() implies #[trigger] f(p[i]) == Some(p[i]) by {
            assert(p[i] == s[i]);
            assert(f(s[i]) == Some(s[i]));
        }
        lemma_filter_map_identity(p, f);
        assert(s.last() == s[s.len() - 1]);
        assert(f(s[s.len() - 1]) == Some(s[s.len() - 1]));
        assert(p + seq![s.last()] =~= s);
    }
}

/// `s.filter_map(f)` is empty when `f` keeps nothing of `s`.
pub proof fn lemma_filter_map_none<A, B>(s: Seq<A>, f: spec_fn(A) -> Option<B>)
    requires
        forall|i: int| 0 <= i < s.len() ==> (#[trigger] f(s[i])) is None,
    ensures
        s.filter_map(f).len() == 0,
    decreases s.len(),
{
    if s.len() > 0 {
        let p = s.drop_last();
        assert forall|i: int| 0 <= i < p.len() implies (#[trigger] f(p[i])) is None by {
            assert(p[i] == s[i]);
            assert(f(s[i]) is None);
        }
        lemma_filter_map_none(p, f);
        assert(s.last() == s[s.len() - 1]);
        assert(f(s[s.len() - 1]) is None);
    }
}

/// Every court of every day has an activity, and so a list of slots.
pub open spec fn days_walkable(days: Seq<(Seq<char>, DayModel)>) -> bool {
    forall|i: int, j: int|
        0 <= i < days.len() && 0 <= j < days[i].1.courts.len()
            ==> (#[trigger] days[i].1.courts[j]).activities.len() > 0
}

pub open spec fn bookable_item() -> spec_fn(ItemModel) -> bool {
    |it: ItemModel| it.3.bookable
}

pub open spec fn bookable_price() -> spec_fn(PriceModel) -> bool {
    |p: PriceModel| p.bookable
}

pub open spec fn bookable_slot() -> spec_fn(SlotModel) -> bool {
    |s: SlotModel| forall|m: int| 0 <= m < s.prices.len() ==> (#[trigger] s.prices[m]).bookable
}

pub open spec fn bookable_court() -> spec_fn(CourtModel) -> bool {
    |c: CourtModel|
        forall|x: int| 0 <= x < court_slots(c).len() ==> bookable_slot()(#[trigger] court_slots(c)[x])
}

proof fn lemma_freed_court_bookable(
    o: CourtModel,
    n: CourtModel,
    now: Option<LocalDateTime>,
    day: Seq<char>,
)
    requires
        n.activities.len() > 0,
    ensures
        opt_holds(freed_court(o, n, now, day), bookable_court()),
{
    let os = court_slots(o);
    let ns = court_slots(n);
    assert forall|i: int| 0 <= i < min_len(os.len(), ns.len()) implies opt_holds(
        #[trigger] slot_step(now, day)(os[i], ns[i]),
        bookable_slot(),
    ) by {
        let ps = freed_prices(os[i].prices, ns[i].prices);
        lemma_zip_forall(
            os[i].prices,
            ns[i].prices,
            price_step(),
            min_len(os[i].prices.len(), ns[i].prices.len()),
            bookable_price(),
        );
        assert forall|m: int| 0 <= m < ps.len() implies (#[trigger] ps[m]).bookable by {
            assert(bookable_price()(ps[m]));
        }
    }
    lemma_zip_forall(os, ns, slot_step(now, day), min_len(os.len(), ns.len()), bookable_slot());
    let ss = freed_slots(os, ns, now, day);
    if ss.len() > 0 {
        let c = court_with_slots(n, ss);
        assert(court_slots(c) == ss);
        assert forall|x: int| 0 <= x < court_slots(c).len() implies bookable_slot()(
            #[trigger] court_slots(c)[x],
        ) by {
            assert(bookable_slot()(ss[x]));
        }
    }
}

/// Whatever got freed (see `freed_days`) is bookable: every price option of every slot of
/// every court of every day of it can be booked.
pub proof fn law_freed_options_are_bookable(
    old: Seq<(Seq<char>, DayModel)>,
    new: Seq<(Seq<char>, DayModel)>,
    now: Option<LocalDateTime>,
)
    requires
        days_walkable(new),
    ensures
        forall|t: int|
            0 <= t < items(freed_days(old, new, now)).len() ==> (#[trigger] items(
                freed_days(old, new, now),
            )[t]).3.bookable,
{
    let q = bookable_item();
    let dq = |e: (Seq<char>, DayModel)| day_all(q, e);
    assert forall|i: int| 0 <= i < old.len() implies opt_holds(#[trigger] day_step(new, now)(old[i]), dq) by {
        let e = old[i];
        if let Some(nd) = lookup(new, e.0) {
            lemma_lookup_found(new, e.0);
            let k = choose|k: int| 0 <= k < new.len() && #[trigger] new[k] == (e.0, nd);
            let oc = e.1.courts;
            let nc = nd.courts;
            assert forall|j: int| 0 <= j < min_len(oc.len(), nc.len()) implies opt_holds(
                #[trigger] court_step(now, e.0)(oc[j], nc[j]),
                bookable_court(),
            ) by {
                assert(new[k].1.courts[j] == nc[j]);
                lemma_freed_court_bookable(oc[j], nc[j], now, e.0);
            }
            lemma_zip_forall(oc, nc, court_step(now, e.0), min_len(oc.len(), nc.len()), bookable_court());
            let cs = freed_court_list(oc, nc, now, e.0);
            if cs.len() > 0 {
                let y = (e.0, day_with_courts(nd, cs));
                assert forall|j: int| 0 <= j < y.1.courts.len() implies court_all(q, y.0, #[trigger] y.1.courts[j]) by {
                    let c = cs[j];
                    assert(bookable_court()(c));
                    assert forall|x: int| 0 <= x < court_slots(c).len() implies slot_all(
                        q,
                        y.0,
                        c,
                        #[trigger] court_slots(c)[x],
                    ) by {
                        assert(bookable_slot()(court_slots(c)[x]));
                    }
                }
                assert(dq(y));
            }
        }
    }
    lemma_filter_map_forall(old, day_step(new, now), dq);
    let fr = freed_days(old, new, now);
    assert forall|i: int| 0 <= i < fr.len() implies day_all(q, #[trigger] fr[i]) by {
        assert(dq(fr[i]));
    }
    lemma_items_forall(fr, q);
}

/// Nothing gets freed between availabilities and themselves.
pub proof fn law_nothing_freed_without_change(
    avail: Seq<(Seq<char>, DayModel)>,
    now: Option<LocalDateTime>,
)
    requires
        keys_sorted(avail),
    ensures
        freed_days(avail, avail, now).len() == 0,
{
    assert forall|i: int| 0 <= i < avail.len() implies (#[trigger] day_step(avail, now)(avail[i])) is None by {
        let e = avail[i];
        lemma_lookup_at(avail, i);
        let cs = e.1.courts;
        assert forall|j: int| 0 <= j < min_len(cs.len(), cs.len()) implies (#[trigger] court_step(
            now,
            e.0,
        )(cs[j], cs[j])) is None by {
            let ss = court_slots(cs[j]);
            assert forall|x: int| 0 <= x < min_len(ss.len(), ss.len()) implies (#[trigger] slot_step(
                now,
                e.0,
            )(ss[x], ss[x])) is None by {
                let ps = ss[x].prices;
                assert forall|m: int| 0 <= m < min_len(ps.len(), ps.len()) implies (#[trigger] price_step()(
                    ps[m],
                    ps[m],
                )) is None by {}
                lemma_zip_none(ps, ps, price_step(), min_len(ps.len(), ps.len()));
            }
            lemma_zip_none(ss, ss, slot_step(now, e.0), min_len(ss.len(), ss.len()));
        }
        lemma_zip_none(cs, cs, court_step(now, e.0), min_len(cs.len(), cs.len()));
    }
    lemma_filter_map_none(avail, day_step(avail, now));
}

pub open spec fn has_activity() -> spec_fn(CourtModel) -> bool {
    |c: CourtModel| c.activities.len() > 0
}

pub open spec fn day_walkable() -> spec_fn((Seq<char>, DayModel)) -> bool {
    |e: (Seq<char>, DayModel)|
        forall|j: int| 0 <= j < e.1.courts.len() ==> (#[trigger] e.1.courts[j]).activities.len() > 0
}

/// What got freed can be walked through as the new availabilities can: every court of it has
/// an activity when every court of `new` has one.
pub proof fn law_freed_days_walkable(
    old: Seq<(Seq<char>, DayModel)>,
    new: Seq<(Seq<char>, DayModel)>,
    now: Option<LocalDateTime>,
)
    requires
        days_walkable(new),
    ensures
        days_walkable(freed_days(old, new, now)),
{
    assert forall|i: int| 0 <= i < old.len() implies opt_holds(
        #[trigger] day_step(new, now)(old[i]),
        day_walkable(),
    ) by {
        let e = old[i];
        if let Some(nd) = lookup(new, e.0) {
            lemma_lookup_found(new, e.0);
            let k = choose|k: int| 0 <= k < new.len() && #[trigger] new[k] == (e.0, nd);
            let oc = e.1.courts;
            let nc = nd.courts;
            assert forall|j: int| 0 <= j < min_len(oc.len(), nc.len()) implies opt_holds(
                #[trigger] court_step(now, e.0)(oc[j], nc[j]),
                has_activity(),
            ) by {
                assert(new[k].1.courts[j] == nc[j]);
            }
            lemma_zip_forall(oc, nc, court_step(now, e.0), min_len(oc.len(), nc.len()), has_activity());
            let cs = freed_court_list(oc, nc, now, e.0);
            assert forall|j: int| 0 <= j < cs.len() implies (#[trigger] cs[j]).activities.len() > 0 by {
                assert(has_activity()(cs[j]));
            }
        }
    }
    lemma_filter_map_forall(old, day_step(new, now), day_walkable());
    let fr = freed_days(old, new, now);
    assert forall|i: int, j: int| 0 <= i < fr.len() && 0 <= j < fr[i].1.courts.len() implies (
    #[trigger] fr[i].1.courts[j]).activities.len() > 0 by {
        assert(day_walkable()(fr[i]));
    }
}

} // verus!
