//! What the server tells its users when courts get freed: the text of a notification, the
//! alarms of each user and the courts each alarm targets, and the devices a notification
//! goes to.
use crate::alarm::{
    item_wanted, law_targets_are_wanted, max_day_of, target_checkable, target_days, Alarm,
    AlarmModel,
};
use crate::availabilities::{concat_map, items, lemma_concat_map_take, Availabilities, ItemModel};
use crate::dates::{
    format_date, formatted_date, parse_date, parsed_date, weekday_french, weekday_of,
    local_now, weekday_to_french, Date, LocalDateTime, DAY_MONTH_FORMAT, MAX_DAY, MIN_DAY,
};
use crate::freed::{days_checkable, days_walkable, freed_days, try_freed_courts_at};
use crate::legarden::{strings_model, DayModel};
use crate::strmap::{lookup, StrMap};
use crate::text::{concat, str_eq};
use vstd::prelude::*;

verus! {

/// The title of the notification of freed courts.
pub const FREED_COURTS_TITLE: &'static str = "Courts libérés! 🎾";

/// What separates the lines of a notification.
pub const LINE_SEPARATOR: &'static str = "\n";

// ---------------------------------------------------------------- the text

/// The line of a notification for a slot starting at `start` on the day `date`: the French
/// abbreviation of the day of the week, the day and month ("%d/%m"), "à" and the start time.
pub open spec fn item_line(date: Seq<char>, start: Seq<char>) -> Seq<char> {
    let d = parsed_date(date).unwrap();
    weekday_french(weekday_of(d as int)) + " "@ + formatted_date(d, DAY_MONTH_FORMAT@).unwrap()
        + " à "@ + start
}

/// One line per price option of `avail`, in the order of `items`.
pub open spec fn item_lines(avail: Seq<(Seq<char>, DayModel)>) -> Seq<Seq<char>> {
    items(avail).map_values(|it: ItemModel| item_line(it.0, it.2.start_at))
}

/// The lines of every availabilities of `avails`, one after the other.
pub open spec fn all_lines(avails: Seq<Seq<(Seq<char>, DayModel)>>) -> Seq<Seq<char>> {
    concat_map(avails, |a: Seq<(Seq<char>, DayModel)>| item_lines(a))
}

/// `s` with each run of equal neighbours kept once.
pub open spec fn dedup(s: Seq<Seq<char>>) -> Seq<Seq<char>>
    decreases s.len(),
{
    if s.len() == 0 {
        s
    } else {
        let d = dedup(s.drop_last());
        if d.len() > 0 && d.last() == s.last() {
            d
        } else {
            d.push(s.last())
        }
    }
}

/// A notification tells each line of its text once in a row: no two neighbouring lines of
/// `dedup(s)` are equal, `dedup(s)` holds exactly the lines of `s`, and it ends with the last
/// line of `s`.
pub proof fn law_dedup_keeps_lines_once_in_a_row(s: Seq<Seq<char>>)
    ensures
        forall|i: int| 0 <= i < dedup(s).len() - 1 ==> #[trigger] dedup(s)[i] != dedup(s)[i + 1],
        forall|x: Seq<char>| s.contains(x) <==> dedup(s).contains(x),
        s.len() > 0 ==> dedup(s).len() > 0 && dedup(s).last() == s.last(),
    decreases s.len(),
{
    if s.len() > 0 {
        let p = s.drop_last();
        law_dedup_keeps_lines_once_in_a_row(p);
        let d = dedup(p);
        assert forall|x: Seq<char>| s.contains(x) <==> dedup(s).contains(x) by {
            if s.contains(x) {
                let k = choose|k: int| 0 <= k < s.len() && s[k] == x;
                if k < p.len() {
                    assert(p[k] == x);
                    assert(p.contains(x));
                    assert(d.contains(x));
                    let j = choose|j: int| 0 <= j < d.len() && d[j] == x;
                    assert(dedup(s)[j] == x);
                } else {
                    assert(dedup(s).last() == x);
                    assert(dedup(s)[dedup(s).len() - 1] == x);
                }
            }
            if dedup(s).contains(x) {
                let j = choose|j: int| 0 <= j < dedup(s).len() && dedup(s)[j] == x;
                if j < d.len() {
                    assert(d[j] == x);
                    assert(p.contains(x));
                    let k = choose|k: int| 0 <= k < p.len() && p[k] == x;
                    assert(s[k] == x);
                } else {
                    assert(s[s.len() - 1] == x);
                }
            }
        }
    }
}

/// The texts of `s` with `sep` between each two of them.
pub open spec fn join(s: Seq<Seq<char>>, sep: Seq<char>) -> Seq<char>
    decreases s.len(),
{
    if s.len() == 0 {
        Seq::empty()
    } else if s.len() == 1 {
        s[0]
    } else {
        join(s.drop_last(), sep) + sep + s.last()
    }
}

/// The body of the notification for the availabilities `avails`: their lines, a run of
/// equal lines kept once, one per line.
pub open spec fn message(avails: Seq<Seq<(Seq<char>, DayModel)>>) -> Seq<char> {
    join(dedup(all_lines(avails)), LINE_SEPARATOR@)
}

pub open spec fn avails_model(v: Seq<Availabilities>) -> Seq<Seq<(Seq<char>, DayModel)>> {
    v.map_values(|a: Availabilities| a@)
}

/// The date of every price option of `avail` can be read.
pub open spec fn dates_readable(avail: Seq<(Seq<char>, DayModel)>) -> bool {
    forall|i: int| 0 <= i < items(avail).len() ==> (#[trigger] parsed_date(items(avail)[i].0)) is Some
}

/// Every availabilities of `avails` can be walked through and has dates that can be read.
pub open spec fn avails_readable(avails: Seq<Availabilities>) -> bool {
    forall|i: int|
        0 <= i < avails.len() ==> (#[trigger] avails[i]).courts_have_slots() && dates_readable(
            avails[i]@,
        )
}

fn item_line_of(date: &str, start: &str) -> (r: String)
    requires
        parsed_date(date@) is Some,
    ensures
        r@ == item_line(date@, start@),
{
    let d = match parse_date(date) {
        Some(d) => d,
        None => 0,
    };
    let day_month = match format_date(d, DAY_MONTH_FORMAT) {
        Some(t) => t,
        None => String::new(),
    };
    let weekday = Date { days_from_ce: d }.weekday();
    let a = concat(weekday_to_french(weekday), " ");
    let b = concat(a.as_str(), day_month.as_str());
    let c = concat(b.as_str(), " à ");
    concat(c.as_str(), start)
}

fn lines_of(avail: &Availabilities) -> (r: Vec<String>)
    requires
        avail.courts_have_slots(),
        dates_readable(avail@),
    ensures
        strings_model(r@) == item_lines(avail@),
{
    let mut out: Vec<String> = Vec::new();
    let mut it = avail.iter();
    proof {
        it.lemma_position_bound();
    }
    loop
        invariant
            it.avail == avail,
            it.inv(),
            avail.courts_have_slots(),
            dates_readable(avail@),
            it.position() <= items(avail@).len(),
            strings_model(out@) == item_lines(avail@).take(it.position()),
        ensures
            strings_model(out@) == item_lines(avail@),
        decreases items(avail@).len() - it.position(),
    {
        let ghost pos = it.position();
        match it.next() {
            Some((date, _court, slot, _price)) => {
                assert(parsed_date(items(avail@)[pos].0) is Some);
                let line = item_line_of(date.as_str(), slot.start_at());
                let ghost before = out@;
                out.push(line);
                assert(strings_model(out@) =~= strings_model(before).push(line@));
                assert(item_lines(avail@).take(pos + 1) =~= item_lines(avail@).take(pos).push(
                    line@,
                ));
            },
            None => {
                assert(item_lines(avail@).take(pos) =~= item_lines(avail@));
                break ;
            },
        }
    }
    out
}

fn all_lines_of(avails: &Vec<Availabilities>) -> (r: Vec<String>)
    requires
        avails_readable(avails@),
    ensures
        strings_model(r@) == all_lines(avails_model(avails@)),
{
    let ghost am = avails_model(avails@);
    let ghost f = |a: Seq<(Seq<char>, DayModel)>| item_lines(a);
    let mut out: Vec<String> = Vec::new();
    let n = avails.len();
    let mut i: usize = 0;
    while i < n
        invariant
            i <= n,
            n == avails@.len(),
            am == avails_model(avails@),
            f == (|a: Seq<(Seq<char>, DayModel)>| item_lines(a)),
            avails_readable(avails@),
            strings_model(out@) == concat_map(am.take(i as int), f),
        decreases n - i,
    {
        let mut lines = lines_of(&avails[i]);
        let ghost before = out@;
        let ghost added = lines@;
        out.append(&mut lines);
        proof {
            lemma_concat_map_take(am, f, i as int);
            assert(strings_model(out@) =~= strings_model(before) + strings_model(added));
        }
        i = i + 1;
    }
    assert(am.take(n as int) =~= am);
    out
}

fn dedup_of(lines: &Vec<String>) -> (r: Vec<String>)
    ensures
        strings_model(r@) == dedup(strings_model(lines@)),
{
    let ghost s = strings_model(lines@);
    let mut out: Vec<String> = Vec::new();
    let n = lines.len();
    let mut i: usize = 0;
    while i < n
        invariant
            i <= n,
            n == s.len(),
            s == strings_model(lines@),
            strings_model(out@) == dedup(s.take(i as int)),
        decreases n - i,
    {
        let ghost before = out@;
        assert(s.take(i + 1).drop_last() =~= s.take(i as int));
        let repeated = out.len() > 0 && str_eq(out[out.len() - 1].as_str(), lines[i].as_str());
        if !repeated {
            out.push(lines[i].clone());
            assert(strings_model(out@) =~= strings_model(before).push(s[i as int]));
        }
        i = i + 1;
    }
    assert(s.take(n as int) =~= s);
    out
}

fn join_of(lines: &Vec<String>, sep: &str) -> (r: String)
    ensures
        r@ == join(strings_model(lines@), sep@),
{
    let ghost s = strings_model(lines@);
    let n = lines.len();
    if n == 0 {
        return String::new();
    }
    let mut out = lines[0].clone();
    assert(s.take(1).drop_last() =~= Seq::<Seq<char>>::empty());
    let mut i: usize = 1;
    while i < n
        invariant
            1 <= i <= n,
            n == s.len(),
            s == strings_model(lines@),
            out@ == join(s.take(i as int), sep@),
        decreases n - i,
    {
        assert(s.take(i + 1).drop_last() =~= s.take(i as int));
        let a = concat(out.as_str(), sep);
        out = concat(a.as_str(), lines[i].as_str());
        i = i + 1;
    }
    assert(s.take(n as int) =~= s);
    out
}

/// The body of the notification for `avails` (see `message`): for each price option, the
/// day of the week in French, the day and month and the start time of its slot; a run of
/// equal lines is kept once.
pub fn message_from_availabilities(avails: &Vec<Availabilities>) -> (r: String)
    requires
        avails_readable(avails@),
    ensures
        r@ == message(avails_model(avails@)),
{
    let lines = all_lines_of(avails);
    let kept = dedup_of(&lines);
    join_of(&kept, LINE_SEPARATOR)
}

fn dates_readable_of(avail: &Availabilities) -> (r: bool)
    requires
        avail.courts_have_slots(),
    ensures
        r == dates_readable(avail@),
{
    let mut it = avail.iter();
    proof {
        it.lemma_position_bound();
    }
    loop
        invariant
            it.avail == avail,
            it.inv(),
            avail.courts_have_slots(),
            it.position() <= items(avail@).len(),
            forall|j: int| 0 <= j < it.position() ==> (#[trigger] parsed_date(items(avail@)[j].0)) is Some,
        decreases items(avail@).len() - it.position(),
    {
        let ghost pos = it.position();
        match it.next() {
            Some((date, _court, _slot, _price)) => {
                if parse_date(date.as_str()).is_none() {
                    assert(parsed_date(items(avail@)[pos].0) is None);
                    return false;
                }
            },
            None => {
                return true;
            },
        }
    }
}

/// The body of the notification for `avails` (see `message_from_availabilities`); nothing
/// when a date of a price option cannot be read.
pub fn try_message_from_availabilities(avails: &Vec<Availabilities>) -> (r: Option<String>)
    requires
        forall|i: int| 0 <= i < avails@.len() ==> (#[trigger] avails@[i]).courts_have_slots(),
    ensures
        match r {
            Some(m) => avails_readable(avails@) && m@ == message(avails_model(avails@)),
            None => !avails_readable(avails@),
        },
{
    let n = avails.len();
    let mut i: usize = 0;
    while i < n
        invariant
            i <= n,
            n == avails@.len(),
            forall|j: int| 0 <= j < avails@.len() ==> (#[trigger] avails@[j]).courts_have_slots(),
            forall|j: int| 0 <= j < i ==> dates_readable((#[trigger] avails@[j])@),
        decreases n - i,
    {
        if !dates_readable_of(&avails[i]) {
            return None;
        }
        i = i + 1;
    }
    Some(message_from_availabilities(avails))
}

// ---------------------------------------------------------------- the alarms of each user

pub open spec fn alarms_model(v: Seq<Alarm>) -> Seq<AlarmModel> {
    v.map_values(|a: Alarm| a@)
}

pub open spec fn pairs_model(v: Seq<(u128, Alarm)>) -> Seq<(u128, AlarmModel)> {
    v.map_values(|e: (u128, Alarm)| (e.0, e.1@))
}

pub open spec fn groups_model(v: Seq<(u128, Vec<Alarm>)>) -> Seq<(u128, Seq<AlarmModel>)> {
    v.map_values(|e: (u128, Vec<Alarm>)| (e.0, alarms_model(e.1@)))
}

/// The users of `s`, each once, in the order in which they first come.
pub open spec fn users_in_order(s: Seq<(u128, AlarmModel)>) -> Seq<u128>
    decreases s.len(),
{
    if s.len() == 0 {
        Seq::empty()
    } else {
        let p = users_in_order(s.drop_last());
        if p.contains(s.last().0) {
            p
        } else {
            p.push(s.last().0)
        }
    }
}

/// The alarms of the user `u` in `s`, in order.
pub open spec fn alarms_of(s: Seq<(u128, AlarmModel)>, u: u128) -> Seq<AlarmModel>
    decreases s.len(),
{
    if s.len() == 0 {
        Seq::empty()
    } else {
        let p = alarms_of(s.drop_last(), u);
        if s.last().0 == u {
            p.push(s.last().1)
        } else {
            p
        }
    }
}

/// Each user of `s` with their alarms, users in the order in which they first come.
pub open spec fn grouped(s: Seq<(u128, AlarmModel)>) -> Seq<(u128, Seq<AlarmModel>)> {
    users_in_order(s).map_values(|u: u128| (u, alarms_of(s, u)))
}

proof fn lemma_alarms_of_absent(s: Seq<(u128, AlarmModel)>, u: u128)
    requires
        !users_in_order(s).contains(u),
    ensures
        alarms_of(s, u) == Seq::<AlarmModel>::empty(),
    decreases s.len(),
{
    if s.len() > 0 {
        let p = users_in_order(s.drop_last());
        if p.contains(u) {
            let k = choose|k: int| 0 <= k < p.len() && p[k] == u;
            assert(users_in_order(s)[k] == u);
        }
        if s.last().0 == u {
            assert(users_in_order(s) == p.push(u));
            assert(users_in_order(s)[p.len() as int] == u);
        }
        lemma_alarms_of_absent(s.drop_last(), u);
    }
}

/// Grouping by user loses no alarm: every user of `s` has a group, and every alarm of `s` is
/// in the group of its user, the alarms of a user keeping their order.
pub proof fn law_grouping_keeps_every_alarm(s: Seq<(u128, AlarmModel)>)
    ensures
        forall|i: int|
            0 <= i < s.len() ==> users_in_order(s).contains((#[trigger] s[i]).0) && alarms_of(
                s,
                s[i].0,
            ).contains(s[i].1),
        forall|u: u128| users_in_order(s).contains(u) ==> alarms_of(s, u).len() > 0,
    decreases s.len(),
{
    if s.len() > 0 {
        let p = s.drop_last();
        law_grouping_keeps_every_alarm(p);
        let last = s.last();
        assert forall|i: int| 0 <= i < s.len() implies users_in_order(s).contains(
            (#[trigger] s[i]).0,
        ) && alarms_of(s, s[i].0).contains(s[i].1) by {
            if i < p.len() {
                assert(p[i] == s[i]);
                let pu = users_in_order(p);
                assert(pu.contains(p[i].0));
                let j = choose|j: int| 0 <= j < pu.len() && pu[j] == p[i].0;
                assert(users_in_order(s)[j] == s[i].0);
                let pa = alarms_of(p, p[i].0);
                assert(pa.contains(p[i].1));
                let k = choose|k: int| 0 <= k < pa.len() && pa[k] == p[i].1;
                assert(alarms_of(s, s[i].0)[k] == s[i].1);
            } else {
                assert(s[i] == last);
                if !users_in_order(p).contains(last.0) {
                    assert(users_in_order(s)[users_in_order(p).len() as int] == last.0);
                }
                assert(alarms_of(s, last.0)[alarms_of(p, last.0).len() as int] == last.1);
            }
        }
        assert forall|u: u128| users_in_order(s).contains(u) implies alarms_of(s, u).len() > 0 by {
            if users_in_order(p).contains(u) {
                assert(alarms_of(p, u).len() > 0);
            } else {
                let j = choose|j: int| 0 <= j < users_in_order(s).len() && users_in_order(s)[j] == u;
                assert(j == users_in_order(p).len());
            }
        }
    }
}

/// The alarms grouped by user: each user once, in the order in which they first come, with
/// their alarms in the order given.
pub fn group_alarms_by_user(alarms: Vec<(u128, Alarm)>) -> (r: Vec<(u128, Vec<Alarm>)>)
    ensures
        groups_model(r@) == grouped(pairs_model(alarms@)),
{
    let ghost s = pairs_model(alarms@);
    let mut out: Vec<(u128, Vec<Alarm>)> = Vec::new();
    let n = alarms.len();
    let mut i: usize = 0;
    while i < n
        invariant
            i <= n,
            n == alarms@.len(),
            s == pairs_model(alarms@),
            groups_model(out@) == grouped(s.take(i as int)),
            forall|a: int, b: int| 0 <= a < b < out@.len() ==> out@[a].0 != out@[b].0,
        decreases n - i,
    {
        let ghost t = s.take(i as int);
        let ghost t2 = s.take(i + 1);
        assert(t2.drop_last() =~= t);
        let u = alarms[i].0;
        let alarm = alarms[i].1.clone();
        assert(t2.last() == (u, alarm@));
        assert(groups_model(out@).len() == out@.len());
        assert(grouped(t).len() == users_in_order(t).len());
        assert forall|k: int| 0 <= k < out@.len() implies out@[k].0 == users_in_order(t)[k] by {
            assert(groups_model(out@)[k] == (out@[k].0, alarms_model(out@[k].1@)));
            assert(grouped(t)[k] == (users_in_order(t)[k], alarms_of(t, users_in_order(t)[k])));
            assert(groups_model(out@)[k] == grouped(t)[k]);
        }
        let mut j: usize = 0;
        let mut found = false;
        while j < out.len()
            invariant
                j <= out@.len(),
                forall|k: int| 0 <= k < j ==> out@[k].0 != u,
                found ==> j < out@.len() && out@[j as int].0 == u,
            ensures
                found ==> j < out@.len() && out@[j as int].0 == u,
                !found ==> forall|k: int| 0 <= k < out@.len() ==> out@[k].0 != u,
            decreases out@.len() - j,
        {
            if out[j].0 == u {
                found = true;
                break ;
            }
            j = j + 1;
        }
        let ghost before = out@;
        if found {
            assert(users_in_order(t)[j as int] == u);
            assert(users_in_order(t).contains(u));
            let (uj, mut group) = out.remove(j);
            group.push(alarm);
            out.insert(j, (uj, group));
            assert(out@ =~= before.update(j as int, (u, group)));
            assert(users_in_order(t2) == users_in_order(t));
            assert(groups_model(out@) =~= grouped(t2)) by {
                assert forall|k: int| 0 <= k < out@.len() implies #[trigger] groups_model(out@)[k]
                    == grouped(t2)[k] by {
                    if k != j {
                        assert(before[k].0 != u);
                        assert(groups_model(before)[k] == grouped(t)[k]);
                    } else {
                        assert(groups_model(before)[k] == grouped(t)[k]);
                        assert(alarms_model(group@) =~= alarms_model(before[k].1@).push(alarm@));
                    }
                }
            }
        } else {
            assert(!users_in_order(t).contains(u)) by {
                if users_in_order(t).contains(u) {
                    let k = choose|k: int|
                        0 <= k < users_in_order(t).len() && users_in_order(t)[k] == u;
                    assert(groups_model(out@)[k] == grouped(t)[k]);
                }
            }
            proof {
                lemma_alarms_of_absent(t, u);
            }
            let mut group: Vec<Alarm> = Vec::new();
            group.push(alarm);
            out.push((u, group));
            assert(users_in_order(t2) == users_in_order(t).push(u));
            assert(groups_model(out@) =~= grouped(t2)) by {
                assert forall|k: int| 0 <= k < out@.len() implies #[trigger] groups_model(out@)[k]
                    == grouped(t2)[k] by {
                    if k < before.len() {
                        assert(before[k].0 != u);
                        assert(groups_model(before)[k] == grouped(t)[k]);
                    } else {
                        assert(alarms_model(group@) =~= seq![alarm@]);
                        assert(alarms_of(t2, u) =~= Seq::<AlarmModel>::empty().push(alarm@));
                    }
                }
            }
        }
        i = i + 1;
    }
    assert(s.take(n as int) =~= s);
    out
}

// ---------------------------------------------------------------- what each alarm targets

/// What the last alarm named `name` among `alarms` targets in `avail` on the day `today`
/// (see `target_days`); nothing when no alarm has that name.
pub open spec fn target_of_name(
    alarms: Seq<AlarmModel>,
    today: int,
    avail: Seq<(Seq<char>, DayModel)>,
    name: Seq<char>,
) -> Option<Seq<(Seq<char>, DayModel)>>
    decreases alarms.len(),
{
    if alarms.len() == 0 {
        None
    } else if alarms.last().name == name {
        Some(target_days(alarms.last(), today, avail))
    } else {
        target_of_name(alarms.drop_last(), today, avail, name)
    }
}

proof fn lemma_target_of_name_from(
    alarms: Seq<AlarmModel>,
    today: int,
    avail: Seq<(Seq<char>, DayModel)>,
    name: Seq<char>,
)
    requires
        target_of_name(alarms, today, avail, name) is Some,
    ensures
        exists|k: int|
            0 <= k < alarms.len() && (#[trigger] alarms[k]).name == name && target_of_name(
                alarms,
                today,
                avail,
                name,
            ) == Some(target_days(alarms[k], today, avail)),
    decreases alarms.len(),
{
    if alarms.last().name == name {
        assert(alarms[alarms.len() - 1] == alarms.last());
    } else {
        let p = alarms.drop_last();
        lemma_target_of_name_from(p, today, avail, name);
        let k = choose|k: int|
            0 <= k < p.len() && (#[trigger] p[k]).name == name && target_of_name(p, today, avail, name)
                == Some(target_days(p[k], today, avail));
        assert(alarms[k] == p[k]);
    }
}

/// What an alarm tells of is what it wants: for a name that one of `alarms` has, every price
/// option of what `target_of_name` gives passes each criterion (see `item_wanted`) of an
/// alarm of `alarms` with that name.
pub proof fn law_told_options_are_wanted(
    alarms: Seq<AlarmModel>,
    today: int,
    avail: Seq<(Seq<char>, DayModel)>,
    name: Seq<char>,
)
    requires
        days_walkable(avail),
        target_of_name(alarms, today, avail, name) is Some,
    ensures
        exists|k: int|
            0 <= k < alarms.len() && (#[trigger] alarms[k]).name == name && forall|t: int|
                0 <= t < items(target_of_name(alarms, today, avail, name).unwrap()).len()
                    ==> item_wanted(
                    alarms[k],
                    today,
                    #[trigger] items(target_of_name(alarms, today, avail, name).unwrap())[t],
                ),
{
    lemma_target_of_name_from(alarms, today, avail, name);
    let k = choose|k: int|
        0 <= k < alarms.len() && (#[trigger] alarms[k]).name == name && target_of_name(
            alarms,
            today,
            avail,
            name,
        ) == Some(target_days(alarms[k], today, avail));
    law_targets_are_wanted(alarms[k], today, avail);
}

/// Every alarm of `alarms` can be applied to `avail` on the day `today`: its last day is one
/// that chrono holds, and the start times it reads can be read.
pub open spec fn alarms_checkable(
    alarms: Seq<AlarmModel>,
    today: int,
    avail: Seq<(Seq<char>, DayModel)>,
) -> bool {
    forall|i: int|
        0 <= i < alarms.len() ==> max_day_of(#[trigger] alarms[i], today) <= MAX_DAY
            && target_checkable(alarms[i], today, avail)
}

/// By alarm name, what the alarms of a user target in the freed courts `freed` on the day
/// `today`; of two alarms with one name, the later one counts.
pub fn targets_by_alarm_on(alarms: &Vec<Alarm>, freed: &Availabilities, today: Date) -> (r:
    StrMap<Availabilities>)
    requires
        freed.wf(),
        MIN_DAY <= today.days_from_ce,
        alarms_checkable(alarms_model(alarms@), today.days_from_ce as int, freed@),
    ensures
        r.wf(),
        forall|name: Seq<char>|
            #![trigger lookup(r@, name)]
            lookup(r@, name) == target_of_name(
                alarms_model(alarms@),
                today.days_from_ce as int,
                freed@,
                name,
            ),
{
    let ghost t = today.days_from_ce as int;
    let ghost am = alarms_model(alarms@);
    let mut out: StrMap<Availabilities> = StrMap::new();
    let n = alarms.len();
    let mut i: usize = 0;
    while i < n
        invariant
            i <= n,
            n == alarms@.len(),
            t == today.days_from_ce,
            am == alarms_model(alarms@),
            freed.wf(),
            MIN_DAY <= today.days_from_ce,
            alarms_checkable(am, t, freed@),
            out.wf(),
            forall|q: Seq<char>|
                #![trigger lookup(out@, q)]
                lookup(out@, q) == target_of_name(am.take(i as int), t, freed@, q),
        decreases n - i,
    {
        let alarm = &alarms[i];
        assert(am[i as int] == alarm@);
        assert(max_day_of(am[i as int], t) <= MAX_DAY);
        let target = alarm.target_availabilities_on(freed, today);
        let ghost before = out@;
        out.insert(alarm.name.clone(), target);
        assert(am.take(i + 1).drop_last() =~= am.take(i as int));
        assert forall|q: Seq<char>| #[trigger] lookup(out@, q) == target_of_name(
            am.take(i + 1),
            t,
            freed@,
            q,
        ) by {
            assert(am.take(i + 1).last() == am[i as int]);
            assert(lookup(before, q) == target_of_name(am.take(i as int), t, freed@, q));
        }
        i = i + 1;
    }
    assert(am.take(n as int) =~= am);
    out
}

/// By alarm name, what the alarms target in `freed` on the day `today` (see
/// `targets_by_alarm_on`); nothing when an alarm cannot be applied.
pub fn targets_by_alarm(alarms: &Vec<Alarm>, freed: &Availabilities, today: Date) -> (r: Option<
    StrMap<Availabilities>,
>)
    requires
        freed.wf(),
        MIN_DAY <= today.days_from_ce <= MAX_DAY,
    ensures
        match r {
            Some(m) => {
                &&& alarms_checkable(alarms_model(alarms@), today.days_from_ce as int, freed@)
                &&& m.wf()
                &&& forall|name: Seq<char>|
                    #![trigger lookup(m@, name)]
                    lookup(m@, name) == target_of_name(
                        alarms_model(alarms@),
                        today.days_from_ce as int,
                        freed@,
                        name,
                    )
            },
            None => !alarms_checkable(alarms_model(alarms@), today.days_from_ce as int, freed@),
        },
{
    let ghost t = today.days_from_ce as int;
    let n = alarms.len();
    let mut i: usize = 0;
    while i < n
        invariant
            i <= n,
            n == alarms@.len(),
            t == today.days_from_ce,
            MIN_DAY <= today.days_from_ce <= MAX_DAY,
            freed.wf(),
            forall|j: int|
                0 <= j < i ==> max_day_of((#[trigger] alarms@[j])@, t) <= MAX_DAY
                    && target_checkable(alarms@[j]@, t, freed@),
        decreases n - i,
    {
        let alarm = &alarms[i];
        assert(alarms_model(alarms@)[i as int] == alarm@);
        if today.days_from_ce as i64 + 7 * alarm.weeks_ahead as i64 > MAX_DAY as i64 {
            assert(max_day_of(alarms_model(alarms@)[i as int], t) > MAX_DAY);
            return None;
        }
        if !alarm.target_inputs_checkable(freed, today) {
            assert(!target_checkable(alarms_model(alarms@)[i as int], t, freed@));
            return None;
        }
        i = i + 1;
    }
    assert forall|j: int| 0 <= j < alarms_model(alarms@).len() implies max_day_of(
        #[trigger] alarms_model(alarms@)[j],
        t,
    ) <= MAX_DAY && target_checkable(alarms_model(alarms@)[j], t, freed@) by {
        assert(alarms_model(alarms@)[j] == alarms@[j]@);
    }
    Some(targets_by_alarm_on(alarms, freed, today))
}

/// By alarm name, what the alarms target in `freed` today, by the machine's clock (see
/// `targets_by_alarm_on`); nothing when an alarm cannot be applied.
pub fn targets_by_alarm_now(alarms: &Vec<Alarm>, freed: &Availabilities) -> (r: Option<
    StrMap<Availabilities>,
>)
    requires
        freed.wf(),
    ensures
        exists|today: int|
            MIN_DAY <= today <= MAX_DAY && (r is None <==> !#[trigger] alarms_checkable(
                alarms_model(alarms@),
                today,
                freed@,
            )) && (r matches Some(m) ==> m.wf() && forall|name: Seq<char>|
                #![trigger lookup(m@, name)]
                lookup(m@, name) == target_of_name(alarms_model(alarms@), today, freed@, name)),
{
    let today = local_now().date;
    let r = targets_by_alarm(alarms, freed, today);
    assert(alarms_checkable(alarms_model(alarms@), today.days_from_ce as int, freed@) || !alarms_checkable(
        alarms_model(alarms@),
        today.days_from_ce as int,
        freed@,
    ));
    r
}

// ---------------------------------------------------------------- what each user is told of

pub open spec fn targets_model(v: Seq<(u128, StrMap<Availabilities>)>) -> Seq<
    (u128, Seq<(Seq<char>, Seq<(Seq<char>, DayModel)>)>),
> {
    v.map_values(|e: (u128, StrMap<Availabilities>)| (e.0, e.1@))
}

/// Every user's alarms can be applied to `freed` on the day `today`.
pub open spec fn groups_checkable(
    groups: Seq<(u128, Seq<AlarmModel>)>,
    today: int,
    freed: Seq<(Seq<char>, DayModel)>,
) -> bool {
    forall|i: int| 0 <= i < groups.len() ==> alarms_checkable((#[trigger] groups[i]).1, today, freed)
}

/// `r` gives, user by user in the order of `groups`, what the user's alarms target in
/// `freed` on the day `today`, by alarm name (see `target_of_name`).
pub open spec fn user_targets(
    groups: Seq<(u128, Seq<AlarmModel>)>,
    today: int,
    freed: Seq<(Seq<char>, DayModel)>,
    r: Seq<(u128, Seq<(Seq<char>, Seq<(Seq<char>, DayModel)>)>)>,
) -> bool {
    &&& r.len() == groups.len()
    &&& forall|i: int|
        0 <= i < r.len() ==> (#[trigger] r[i]).0 == groups[i].0 && forall|name: Seq<char>|
            #![trigger lookup(r[i].1, name)]
            lookup(r[i].1, name) == target_of_name(groups[i].1, today, freed, name)
}

/// What the users are told of when courts get freed from `old` to `new` at `now`: nothing
/// when nothing that counts got freed; else, user by user (see `group_alarms_by_user`), what
/// each user's alarms target in what got freed, by alarm name. `None` when a start time or a
/// date that this reads cannot be read, or when an alarm looks beyond the days chrono holds.
pub fn alarm_targets_by_user_at(
    new: &Availabilities,
    old: &Availabilities,
    alarms: Vec<(u128, Alarm)>,
    now: &LocalDateTime,
) -> (r: Option<Vec<(u128, StrMap<Availabilities>)>>)
    requires
        new.wf(),
        old.wf(),
        MIN_DAY <= now.date.days_from_ce <= MAX_DAY,
    ensures
        ({
            let freed = freed_days(old@, new@, Some(*now));
            let groups = grouped(pairs_model(alarms@));
            let today = now.date.days_from_ce as int;
            match r {
                Some(v) => {
                    &&& days_checkable(Some(*now), old@, new@)
                    &&& forall|i: int| 0 <= i < v@.len() ==> (#[trigger] v@[i]).1.wf()
                    &&& if freed.len() == 0 {
                        v@.len() == 0
                    } else {
                        groups_checkable(groups, today, freed) && user_targets(
                            groups,
                            today,
                            freed,
                            targets_model(v@),
                        )
                    }
                },
                None => !days_checkable(Some(*now), old@, new@) || (freed.len() > 0
                    && !groups_checkable(groups, today, freed)),
            }
        }),
{
    let freed = match try_freed_courts_at(new, old, now) {
        Some(f) => f,
        None => {
            return None;
        },
    };
    let ghost fm = freed@;
    let ghost today = now.date.days_from_ce as int;
    if freed.is_empty() {
        return Some(Vec::new());
    }
    let ghost pm = pairs_model(alarms@);
    let groups = group_alarms_by_user(alarms);
    let ghost gm = groups_model(groups@);
    assert(gm == grouped(pm));
    let mut out: Vec<(u128, StrMap<Availabilities>)> = Vec::new();
    let n = groups.len();
    let mut i: usize = 0;
    while i < n
        invariant
            i <= n,
            n == groups@.len(),
            gm == groups_model(groups@),
            gm == grouped(pm),
            pm == pairs_model(alarms@),
            fm == freed@,
            fm == freed_days(old@, new@, Some(*now)),
            fm.len() > 0,
            days_checkable(Some(*now), old@, new@),
            freed.wf(),
            today == now.date.days_from_ce,
            MIN_DAY <= now.date.days_from_ce <= MAX_DAY,
            out@.len() == i,
            forall|k: int| 0 <= k < i ==> (#[trigger] out@[k]).1.wf(),
            forall|k: int| 0 <= k < i ==> alarms_checkable((#[trigger] gm[k]).1, today, fm),
            user_targets(gm.take(i as int), today, fm, targets_model(out@)),
        decreases n - i,
    {
        assert(gm[i as int] == (groups@[i as int].0, alarms_model(groups@[i as int].1@)));
        match targets_by_alarm(&groups[i].1, &freed, now.date) {
            Some(m) => {
                let ghost before = out@;
                out.push((groups[i].0, m));
                assert(targets_model(out@) =~= targets_model(before).push((groups@[i as int].0, m@)));
                assert(gm.take(i + 1) =~= gm.take(i as int).push(gm[i as int]));
                assert(user_targets(gm.take(i + 1), today, fm, targets_model(out@))) by {
                    assert forall|k: int| 0 <= k < i + 1 implies (#[trigger] targets_model(out@)[k]).0
                        == gm.take(i + 1)[k].0 && forall|name: Seq<char>|
                        #![trigger lookup(targets_model(out@)[k].1, name)]
                        lookup(targets_model(out@)[k].1, name) == target_of_name(
                            gm.take(i + 1)[k].1,
                            today,
                            fm,
                            name,
                        ) by {
                        if k < i {
                            assert(targets_model(out@)[k] == targets_model(before)[k]);
                            assert(gm.take(i + 1)[k] == gm.take(i as int)[k]);
                        } else {
                            assert(targets_model(out@)[k] == (groups@[i as int].0, m@));
                        }
                    }
                }
            },
            None => {
                assert(!groups_checkable(gm, today, fm)) by {
                    assert(!alarms_checkable(gm[i as int].1, today, fm));
                }
                return None;
            },
        }
        i = i + 1;
    }
    assert(gm.take(n as int) =~= gm);
    assert(groups_checkable(gm, today, fm));
    Some(out)
}

/// What the users are told of when courts get freed from `old` to `new`, at the time the
/// machine's clock reads (see `alarm_targets_by_user_at`).
pub fn alarm_targets_by_user(
    new: &Availabilities,
    old: &Availabilities,
    alarms: Vec<(u128, Alarm)>,
) -> (r: Option<Vec<(u128, StrMap<Availabilities>)>>)
    requires
        new.wf(),
        old.wf(),
    ensures
        r matches Some(v) ==> exists|now: LocalDateTime|
            #[trigger] days_checkable(Some(now), old@, new@) && (if freed_days(
                old@,
                new@,
                Some(now),
            ).len() == 0 {
                v@.len() == 0
            } else {
                user_targets(
                    grouped(pairs_model(alarms@)),
                    now.date.days_from_ce as int,
                    freed_days(old@, new@, Some(now)),
                    targets_model(v@),
                )
            }),
        r is None ==> exists|now: LocalDateTime|
            MIN_DAY <= now.date.days_from_ce <= MAX_DAY && (!#[trigger] days_checkable(
                Some(now),
                old@,
                new@,
            ) || (freed_days(old@, new@, Some(now)).len() > 0 && !groups_checkable(
                grouped(pairs_model(alarms@)),
                now.date.days_from_ce as int,
                freed_days(old@, new@, Some(now)),
            ))),
{
    let now = local_now();
    alarm_targets_by_user_at(new, old, alarms, &now)
}

// ---------------------------------------------------------------- the notification of a user

/// The notification sent to a user.
pub struct Notification {
    pub title: String,
    pub body: String,
    /// The names of the alarms it answers.
    pub alarm_names: Vec<String>,
}

/// Every court of every day has an activity, so that it has a list of slots.
pub open spec fn walkable(a: Seq<(Seq<char>, DayModel)>) -> bool {
    forall|i: int, j: int|
        0 <= i < a.len() && 0 <= j < a[i].1.courts.len()
            ==> (#[trigger] a[i].1.courts[j]).activities.len() > 0
}

/// The availabilities of each alarm can be walked through and have dates that can be read.
pub open spec fn per_alarm_readable(s: Seq<(Seq<char>, Seq<(Seq<char>, DayModel)>)>) -> bool {
    forall|i: int| 0 <= i < s.len() ==> walkable((#[trigger] s[i]).1) && dates_readable(s[i].1)
}

/// No alarm has a price option to tell of.
pub open spec fn nothing_to_tell(s: Seq<(Seq<char>, Seq<(Seq<char>, DayModel)>)>) -> bool {
    forall|i: int| 0 <= i < s.len() ==> items((#[trigger] s[i]).1).len() == 0
}

/// What is sent to a user with devices or not, whose alarms target `s`: nothing when the
/// user has no device or when no alarm has anything to tell; else the title of freed courts,
/// the lines of `message` for the alarms' availabilities in the order of their names, and
/// those names.
pub open spec fn notification_spec(
    has_devices: bool,
    s: Seq<(Seq<char>, Seq<(Seq<char>, DayModel)>)>,
    r: Option<Notification>,
) -> bool {
    match r {
        None => !has_devices || nothing_to_tell(s),
        Some(n) => {
            &&& has_devices
            &&& !nothing_to_tell(s)
            &&& n.title@ == FREED_COURTS_TITLE@
            &&& n.body@ == message(
                s.map_values(|e: (Seq<char>, Seq<(Seq<char>, DayModel)>)| e.1),
            )
            &&& strings_model(n.alarm_names@) == s.map_values(
                |e: (Seq<char>, Seq<(Seq<char>, DayModel)>)| e.0,
            )
        },
    }
}

fn has_items(avail: &Availabilities) -> (r: bool)
    requires
        avail.courts_have_slots(),
    ensures
        r == (items(avail@).len() > 0),
{
    let mut it = avail.iter();
    match it.next() {
        Some(_) => true,
        None => false,
    }
}

/// The notification for a user, given whether they have a device and what their alarms
/// target by alarm name (see `notification_spec`).
pub fn notification_for(has_devices: bool, per_alarm: &StrMap<Availabilities>) -> (r: Option<
    Notification,
>)
    requires
        per_alarm_readable(per_alarm@),
    ensures
        notification_spec(has_devices, per_alarm@, r),
{
    let ghost s = per_alarm@;
    let ghost values = s.map_values(|e: (Seq<char>, Seq<(Seq<char>, DayModel)>)| e.1);
    let ghost keys = s.map_values(|e: (Seq<char>, Seq<(Seq<char>, DayModel)>)| e.0);
    if !has_devices {
        return None;
    }
    let mut names: Vec<String> = Vec::new();
    let mut avails: Vec<Availabilities> = Vec::new();
    let mut any = false;
    let n = per_alarm.len();
    let mut i: usize = 0;
    while i < n
        invariant
            i <= n,
            n == s.len(),
            s == per_alarm@,
            per_alarm_readable(s),
            values == s.map_values(|e: (Seq<char>, Seq<(Seq<char>, DayModel)>)| e.1),
            keys == s.map_values(|e: (Seq<char>, Seq<(Seq<char>, DayModel)>)| e.0),
            strings_model(names@) == keys.take(i as int),
            avails_model(avails@) == values.take(i as int),
            avails_readable(avails@),
            any == exists|j: int| 0 <= j < i && items((#[trigger] s[j]).1).len() > 0,
        decreases n - i,
    {
        let avail = per_alarm.value_at(i);
        assert(walkable(s[i as int].1));
        if has_items(avail) {
            any = true;
        }
        let ghost names0 = names@;
        let ghost avails0 = avails@;
        names.push(per_alarm.key_at(i).clone());
        let copy = avail.clone();
        avails.push(copy);
        assert(strings_model(names@) =~= strings_model(names0).push(keys[i as int]));
        assert(keys.take(i + 1) =~= keys.take(i as int).push(keys[i as int]));
        assert(avails_model(avails@) =~= avails_model(avails0).push(values[i as int]));
        assert(values.take(i + 1) =~= values.take(i as int).push(values[i as int]));
        assert forall|j: int| 0 <= j < avails@.len() implies (#[trigger] avails@[j]).courts_have_slots()
            && dates_readable(avails@[j]@) by {
            if j < i {
                assert(avails@[j] == avails0[j]);
            } else {
                assert(avails@[j]@ == s[i as int].1);
            }
        }
        assert(any == exists|j: int| 0 <= j < i + 1 && items((#[trigger] s[j]).1).len() > 0) by {
            if items(s[i as int].1).len() > 0 {
                assert(items(s[i as int].1).len() > 0);
            }
        }
        i = i + 1;
    }
    assert(keys.take(n as int) =~= keys);
    assert(values.take(n as int) =~= values);
    if !any {
        return None;
    }
    let body = message_from_availabilities(&avails);
    Some(Notification { title: String::from_str(FREED_COURTS_TITLE), body, alarm_names: names })
}

/// The notification for a user (see `notification_for`), or `None` when a date of a price
/// option that it would tell of cannot be read.
pub fn try_notification_for(has_devices: bool, per_alarm: &StrMap<Availabilities>) -> (r: Option<
    Option<Notification>,
>)
    requires
        forall|i: int| 0 <= i < per_alarm@.len() ==> walkable((#[trigger] per_alarm@[i]).1),
    ensures
        match r {
            Some(x) => per_alarm_readable(per_alarm@) && notification_spec(
                has_devices,
                per_alarm@,
                x,
            ),
            None => !per_alarm_readable(per_alarm@),
        },
{
    let ghost s = per_alarm@;
    let n = per_alarm.len();
    let mut i: usize = 0;
    while i < n
        invariant
            i <= n,
            n == s.len(),
            s == per_alarm@,
            forall|j: int| 0 <= j < s.len() ==> walkable((#[trigger] s[j]).1),
            forall|j: int| 0 <= j < i ==> dates_readable((#[trigger] s[j]).1),
        decreases n - i,
    {
        assert(walkable(s[i as int].1));
        if !dates_readable_of(per_alarm.value_at(i)) {
            return None;
        }
        i = i + 1;
    }
    Some(notification_for(has_devices, per_alarm))
}

// ---------------------------------------------------------------- devices

/// The service that pushes notifications to devices: to mobile apps through Expo's push
/// API, to browsers through Web Push.
pub struct ExpoNotificationsService;

/// Expo's push API.
pub const EXPO_PUSH_API_URL: &'static str = "https://exp.host/--/api/v2/push/send";

/// The keys of a browser's push subscription.
pub struct SubscriptionKeys {
    pub p256dh: String,
    pub auth: String,
}

/// A browser's push subscription: where to push, and with which keys.
pub struct SubscriptionInfo {
    pub endpoint: String,
    pub keys: SubscriptionKeys,
}

/// How a device is reached: the push token of the mobile app, or a browser's subscription.
pub enum NotifInfo {
    Mobile(String),
    Web(SubscriptionInfo),
}

/// A device registered by a user.
pub struct Device {
    pub device_id: String,
    pub notif_info: NotifInfo,
}

impl Device {
    /// A mobile device with its push token.
    pub fn new_mobile(id: &str, token: &str) -> (r: Device)
        ensures
            r.device_id@ == id@,
            r.notif_info matches NotifInfo::Mobile(t) && t@ == token@,
    {
        Device {
            device_id: String::from_str(id),
            notif_info: NotifInfo::Mobile(String::from_str(token)),
        }
    }

    /// A browser with its push subscription.
    pub fn new_browser(id: &str, token: SubscriptionInfo) -> (r: Device)
        ensures
            r.device_id@ == id@,
            r.notif_info == NotifInfo::Web(token),
    {
        Device { device_id: String::from_str(id), notif_info: NotifInfo::Web(token) }
    }

    /// Whether the device is a mobile one.
    pub fn is_mobile(&self) -> (r: bool)
        ensures
            r == (self.notif_info is Mobile),
    {
        match self.notif_info {
            NotifInfo::Mobile(_) => true,
            NotifInfo::Web(_) => false,
        }
    }
}

/// The push tokens of the mobile devices of `ds`, in order.
pub open spec fn tokens_in(ds: Seq<Device>) -> Seq<Seq<char>>
    decreases ds.len(),
{
    if ds.len() == 0 {
        Seq::empty()
    } else {
        let p = tokens_in(ds.drop_last());
        match ds.last().notif_info {
            NotifInfo::Mobile(t) => p.push(t@),
            NotifInfo::Web(_) => p,
        }
    }
}

/// The browsers of `ds`, in order.
pub open spec fn browsers_in(ds: Seq<Device>) -> Seq<Device>
    decreases ds.len(),
{
    if ds.len() == 0 {
        Seq::empty()
    } else {
        let p = browsers_in(ds.drop_last());
        match ds.last().notif_info {
            NotifInfo::Mobile(_) => p,
            NotifInfo::Web(_) => p.push(ds.last()),
        }
    }
}

/// The push tokens of the mobile devices among `devices`, in order.
pub fn mobile_tokens(devices: &Vec<Device>) -> (r: Vec<String>)
    ensures
        strings_model(r@) == tokens_in(devices@),
{
    let mut out: Vec<String> = Vec::new();
    let n = devices.len();
    let mut i: usize = 0;
    while i < n
        invariant
            i <= n,
            n == devices@.len(),
            strings_model(out@) == tokens_in(devices@.take(i as int)),
        decreases n - i,
    {
        assert(devices@.take(i + 1).drop_last() =~= devices@.take(i as int));
        assert(devices@.take(i + 1).last() == devices@[i as int]);
        match &devices[i].notif_info {
            NotifInfo::Mobile(t) => {
                let ghost before = out@;
                out.push(t.clone());
                assert(strings_model(out@) =~= strings_model(before).push(t@));
            },
            NotifInfo::Web(_) => {},
        }
        i = i + 1;
    }
    assert(devices@.take(n as int) =~= devices@);
    out
}

/// The browsers among `devices`, in order.
pub fn browser_devices(devices: &Vec<Device>) -> (r: Vec<&Device>)
    ensures
        r@.map_values(|d: &Device| *d) == browsers_in(devices@),
{
    let mut out: Vec<&Device> = Vec::new();
    let n = devices.len();
    let mut i: usize = 0;
    while i < n
        invariant
            i <= n,
            n == devices@.len(),
            out@.map_values(|d: &Device| *d) == browsers_in(devices@.take(i as int)),
        decreases n - i,
    {
        assert(devices@.take(i + 1).drop_last() =~= devices@.take(i as int));
        assert(devices@.take(i + 1).last() == devices@[i as int]);
        let d = &devices[i];
        if !d.is_mobile() {
            let ghost before = out@;
            out.push(d);
            assert(out@.map_values(|d: &Device| *d) =~= before.map_values(|d: &Device| *d).push(
                *d,
            ));
        }
        i = i + 1;
    }
    assert(devices@.take(n as int) =~= devices@);
    out
}

} // verus!
