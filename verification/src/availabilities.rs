//! The availabilities of all polled days, and the walk through every price
//! option of every slot of every court of every day.
use crate::legarden::{
    court_slots, courts_model, CourtModel, Court, DayModel, DayPlanningResponse, Price,
    PriceModel, Slot, SlotModel,
};
use crate::strmap::{lookup, StrMap};
use crate::text::seq_lt;
use vstd::prelude::*;

verus! {

/// The concatenation of `f(x)` for the elements `x` of `s`, in order.
pub open spec fn concat_map<A, B>(s: Seq<A>, f: spec_fn(A) -> Seq<B>) -> Seq<B>
    decreases s.len(),
{
    if s.len() == 0 {
        Seq::empty()
    } else {
        concat_map(s.drop_last(), f) + f(s.last())
    }
}

pub proof fn lemma_concat_map_take<A, B>(s: Seq<A>, f: spec_fn(A) -> Seq<B>, i: int)
    requires
        0 <= i < s.len(),
    ensures
        concat_map(s.take(i + 1), f) == concat_map(s.take(i), f) + f(s[i]),
{
    assert(s.take(i + 1).drop_last() =~= s.take(i));
}

/// What `concat_map` gives for a prefix of `s` is a prefix of what it gives for `s`.
pub proof fn lemma_concat_map_prefix<A, B>(s: Seq<A>, f: spec_fn(A) -> Seq<B>, i: int, j: int)
    requires
        0 <= i <= j <= s.len(),
    ensures
        concat_map(s.take(i), f).len() <= concat_map(s.take(j), f).len(),
        concat_map(s.take(j), f).take(concat_map(s.take(i), f).len() as int) == concat_map(
            s.take(i),
            f,
        ),
    decreases j - i,
{
    if i < j {
        lemma_concat_map_prefix(s, f, i, j - 1);
        lemma_concat_map_take(s, f, j - 1);
        let a = concat_map(s.take(i), f);
        let b = concat_map(s.take(j - 1), f);
        assert((b + f(s[j - 1])).take(a.len() as int) =~= b.take(a.len() as int));
    }
}

/// The element of `concat_map(s, f)` at the place where `f(s[i])[j]` lands.
pub proof fn lemma_concat_map_index<A, B>(s: Seq<A>, f: spec_fn(A) -> Seq<B>, i: int, j: int)
    requires
        0 <= i < s.len(),
        0 <= j < f(s[i]).len(),
    ensures
        concat_map(s.take(i), f).len() + f(s[i]).len() <= concat_map(s, f).len(),
        concat_map(s, f)[concat_map(s.take(i), f).len() + j] == f(s[i])[j],
{
    lemma_concat_map_take(s, f, i);
    lemma_concat_map_prefix(s, f, i + 1, s.len() as int);
    assert(s.take(s.len() as int) =~= s);
    let p = concat_map(s.take(i + 1), f);
    let k = concat_map(s.take(i), f).len() + j;
    assert(concat_map(s, f).take(p.len() as int)[k] == p[k]);
}

pub proof fn lemma_concat_map_take_le<A, B>(s: Seq<A>, f: spec_fn(A) -> Seq<B>, i: int)
    requires
        0 <= i <= s.len(),
    ensures
        concat_map(s.take(i), f).len() <= concat_map(s, f).len(),
        i < s.len() ==> concat_map(s.take(i), f).len() + f(s[i]).len() <= concat_map(s, f).len(),
{
    assert(s.take(s.len() as int) =~= s);
    lemma_concat_map_prefix(s, f, i, s.len() as int);
    if i < s.len() {
        lemma_concat_map_take(s, f, i);
        lemma_concat_map_prefix(s, f, i + 1, s.len() as int);
    }
}

/// One price option of one slot of one court of one day.
pub type ItemModel = (Seq<char>, CourtModel, SlotModel, PriceModel);

pub open spec fn slot_items(k: Seq<char>, c: CourtModel, s: SlotModel) -> Seq<ItemModel> {
    s.prices.map_values(|p: PriceModel| (k, c, s, p))
}

pub open spec fn court_items(k: Seq<char>, c: CourtModel) -> Seq<ItemModel> {
    concat_map(court_slots(c), |s: SlotModel| slot_items(k, c, s))
}

pub open spec fn day_items(k: Seq<char>, d: DayModel) -> Seq<ItemModel> {
    concat_map(d.courts, |c: CourtModel| court_items(k, c))
}

/// Every price option of every slot of every court of every day, days in key order,
/// courts, slots and prices in the order of their lists.
pub open spec fn items(days: Seq<(Seq<char>, DayModel)>) -> Seq<ItemModel> {
    concat_map(days, |e: (Seq<char>, DayModel)| day_items(e.0, e.1))
}

/// Every element of `concat_map(s, f)` satisfies `q` when every element of every `f(x)` does.
pub proof fn lemma_concat_map_forall<A, B>(s: Seq<A>, f: spec_fn(A) -> Seq<B>, q: spec_fn(B) -> bool)
    requires
        forall|i: int, j: int| 0 <= i < s.len() && 0 <= j < f(s[i]).len() ==> q(#[trigger] f(s[i])[j]),
    ensures
        forall|t: int| 0 <= t < concat_map(s, f).len() ==> q(#[trigger] concat_map(s, f)[t]),
    decreases s.len(),
{
    if s.len() > 0 {
        let p = s.drop_last();
        assert forall|i: int, j: int| 0 <= i < p.len() && 0 <= j < f(p[i]).len() implies q(
            #[trigger] f(p[i])[j],
        ) by {
            assert(p[i] == s[i]);
        }
        lemma_concat_map_forall(p, f, q);
        let a = concat_map(p, f);
        let b = f(s.last());
        assert forall|t: int| 0 <= t < concat_map(s, f).len() implies q(
            #[trigger] concat_map(s, f)[t],
        ) by {
            if t < a.len() {
                assert(concat_map(s, f)[t] == a[t]);
            } else {
                assert(concat_map(s, f)[t] == b[t - a.len()]);
                assert(s[s.len() - 1] == s.last());
                assert(f(s[s.len() - 1])[t - a.len()] == b[t - a.len()]);
            }
        }
    }
}

/// Every price option of the slot `s` (of the court `c` of the day `k`) satisfies `q`.
pub open spec fn slot_all(q: spec_fn(ItemModel) -> bool, k: Seq<char>, c: CourtModel, s: SlotModel) -> bool {
    forall|m: int| 0 <= m < s.prices.len() ==> q((k, c, s, #[trigger] s.prices[m]))
}

/// Every price option of every slot of the court `c` (of the day `k`) satisfies `q`.
pub open spec fn court_all(q: spec_fn(ItemModel) -> bool, k: Seq<char>, c: CourtModel) -> bool {
    forall|x: int| 0 <= x < court_slots(c).len() ==> slot_all(q, k, c, #[trigger] court_slots(c)[x])
}

/// Every price option of every slot of every court of the day `e` satisfies `q`.
pub open spec fn day_all(q: spec_fn(ItemModel) -> bool, e: (Seq<char>, DayModel)) -> bool {
    forall|j: int| 0 <= j < e.1.courts.len() ==> court_all(q, e.0, #[trigger] e.1.courts[j])
}

/// What holds of every price option of every day holds of every item.
pub proof fn lemma_items_forall(days: Seq<(Seq<char>, DayModel)>, q: spec_fn(ItemModel) -> bool)
    requires
        forall|i: int| 0 <= i < days.len() ==> day_all(q, #[trigger] days[i]),
    ensures
        forall|t: int| 0 <= t < items(days).len() ==> q(#[trigger] items(days)[t]),
{
    let fd = |e: (Seq<char>, DayModel)| day_items(e.0, e.1);
    assert forall|i: int, j: int| 0 <= i < days.len() && 0 <= j < fd(days[i]).len() implies q(
        #[trigger] fd(days[i])[j],
    ) by {
        let e = days[i];
        let fc = |c: CourtModel| court_items(e.0, c);
        assert(day_all(q, e));
        assert forall|a: int, b: int| 0 <= a < e.1.courts.len() && 0 <= b < fc(e.1.courts[a]).len()
            implies q(#[trigger] fc(e.1.courts[a])[b]) by {
            let c = e.1.courts[a];
            assert(court_all(q, e.0, c));
            let fs = |x: SlotModel| slot_items(e.0, c, x);
            assert forall|u: int, v: int|
                0 <= u < court_slots(c).len() && 0 <= v < fs(court_slots(c)[u]).len() implies q(
                #[trigger] fs(court_slots(c)[u])[v],
            ) by {
                let sl = court_slots(c)[u];
                assert(slot_all(q, e.0, c, sl));
                assert(fs(sl)[v] == (e.0, c, sl, sl.prices[v]));
            }
            lemma_concat_map_forall(court_slots(c), fs, q);
        }
        lemma_concat_map_forall(e.1.courts, fc, q);
    }
    lemma_concat_map_forall(days, fd, q);
}

/// The availabilities of courts, by date ("YYYY-MM-DD"), dates in increasing order.
pub struct Availabilities(pub StrMap<DayPlanningResponse>);

impl View for Availabilities {
    type V = Seq<(Seq<char>, DayModel)>;

    open spec fn view(&self) -> Seq<(Seq<char>, DayModel)> {
        self.0@
    }
}

impl Availabilities {
    /// Well-formed: the dates are strictly increasing.
    pub open spec fn wf(&self) -> bool {
        self.0.wf()
    }

    /// Every court of every day has an activity, so that it has a list of slots.
    pub open spec fn courts_have_slots(&self) -> bool {
        forall|i: int, j: int|
            0 <= i < self@.len() && 0 <= j < self@[i].1.courts.len()
                ==> (#[trigger] self@[i].1.courts[j]).activities.len() > 0
    }

    /// No availabilities.
    pub fn new() -> (r: Self)
        ensures
            r@ == Seq::<(Seq<char>, DayModel)>::empty(),
            r.wf(),
    {
        Availabilities(StrMap::new())
    }

    /// Whether the dates are strictly increasing (see `wf`).
    pub fn is_well_formed(&self) -> (r: bool)
        ensures
            r == self.wf(),
    {
        self.0.keys_in_order()
    }

    /// Whether every court of every day has an activity (see `courts_have_slots`).
    pub fn all_courts_have_slots(&self) -> (r: bool)
        ensures
            r == self.courts_have_slots(),
    {
        let n = self.0.len();
        let mut i: usize = 0;
        while i < n
            invariant
                i <= n,
                n == self@.len(),
                forall|a: int, j: int|
                    0 <= a < i && 0 <= j < self@[a].1.courts.len()
                        ==> (#[trigger] self@[a].1.courts[j]).activities.len() > 0,
            decreases n - i,
        {
            let courts = self.0.value_at(i).courts();
            let mut j: usize = 0;
            while j < courts.len()
                invariant
                    i < n,
                    n == self@.len(),
                    j <= courts@.len(),
                    courts_model(courts@) == self@[i as int].1.courts,
                    forall|k: int| 0 <= k < j ==> (#[trigger] self@[i as int].1.courts[k]).activities.len() > 0,
                decreases courts@.len() - j,
            {
                assert(self@[i as int].1.courts[j as int] == courts@[j as int]@);
                if courts[j].activities.len() == 0 {
                    return false;
                }
                j = j + 1;
            }
            i = i + 1;
        }
        true
    }

    /// The number of days.
    pub fn len(&self) -> (r: usize)
        ensures
            r == self@.len(),
    {
        self.0.len()
    }

    /// Whether there is no day.
    pub fn is_empty(&self) -> (r: bool)
        ensures
            r == (self@.len() == 0),
    {
        self.0.is_empty()
    }

    /// The planning of the day `date`.
    pub fn get(&self, date: &str) -> (r: Option<&DayPlanningResponse>)
        requires
            self.wf(),
        ensures
            match r {
                Some(d) => lookup(self@, date@) == Some(d@),
                None => lookup(self@, date@) is None,
            },
    {
        self.0.get(date)
    }

    /// Whether the day `date` is there.
    pub fn contains_key(&self, date: &str) -> (r: bool)
        requires
            self.wf(),
        ensures
            r == (lookup(self@, date@) is Some),
    {
        self.0.contains_key(date)
    }

    /// Sets the planning of the day `date`.
    pub fn insert(&mut self, date: String, day: DayPlanningResponse)
        requires
            old(self).wf(),
        ensures
            final(self).wf(),
            forall|q: Seq<char>|
                #![trigger lookup(final(self)@, q)]
                lookup(final(self)@, q) == if q == date@ {
                    Some(day@)
                } else {
                    lookup(old(self)@, q)
                },
    {
        self.0.insert(date, day)
    }

    /// Appends a day that comes after every day already there.
    pub fn push(&mut self, date: String, day: DayPlanningResponse)
        requires
            old(self).wf(),
            old(self)@.len() > 0 ==> seq_lt(old(self)@.last().0, date@),
        ensures
            final(self)@ == old(self)@.push((date@, day@)),
            final(self).wf(),
    {
        self.0.push(date, day)
    }

    /// The first day and its planning.
    pub fn first(&self) -> (r: Option<(&String, &DayPlanningResponse)>)
        ensures
            match r {
                Some((k, d)) => self@.len() > 0 && k@ == self@[0].0 && d@ == self@[0].1,
                None => self@.len() == 0,
            },
    {
        if self.0.is_empty() {
            None
        } else {
            Some((self.0.key_at(0), self.0.value_at(0)))
        }
    }

    /// The date of the `i`-th day.
    pub fn date_at(&self, i: usize) -> (r: &String)
        requires
            i < self@.len(),
        ensures
            r@ == self@[i as int].0,
    {
        self.0.key_at(i)
    }

    /// The planning of the `i`-th day.
    pub fn day_at(&self, i: usize) -> (r: &DayPlanningResponse)
        requires
            i < self@.len(),
        ensures
            r@ == self@[i as int].1,
    {
        self.0.value_at(i)
    }

    /// A walk through every price option of every slot of every court of every day.
    pub fn iter(&self) -> (r: AvailIter<'_>)
        ensures
            r.avail == self,
            r.inv(),
            r.position() == 0,
    {
        let r = AvailIter { avail: self, day: 0, court: 0, slot: 0, price: 0 };
        proof {
            assert(self@.take(0) =~= Seq::<(Seq<char>, DayModel)>::empty());
            if self@.len() > 0 {
                let courts = self@[0].1.courts;
                assert(courts.take(0) =~= Seq::<CourtModel>::empty());
                if courts.len() > 0 {
                    assert(court_slots(courts[0]).take(0) =~= Seq::<SlotModel>::empty());
                }
            }
        }
        r
    }
}

impl Default for Availabilities {
    /// No availabilities.
    fn default() -> (r: Self)
        ensures
            r@ == Seq::<(Seq<char>, DayModel)>::empty(),
            r.wf(),
    {
        Availabilities::new()
    }
}

impl Clone for Availabilities {
    /// A copy with the same days and plannings.
    fn clone(&self) -> (r: Self)
        ensures
            r@ == self@,
    {
        let ghost s = self@;
        let mut out: StrMap<DayPlanningResponse> = StrMap::new();
        let n = self.0.len();
        let mut i: usize = 0;
        while i < n
            invariant
                i <= n,
                n == s.len(),
                s == self@,
                out@ == s.take(i as int),
            decreases n - i,
        {
            assert(s.take(i + 1) =~= s.take(i as int).push(s[i as int]));
            out.append_entry(self.0.key_at(i).clone(), self.0.value_at(i).clone());
            i = i + 1;
        }
        assert(s.take(n as int) =~= s);
        Availabilities(out)
    }
}

/// A walk through the price options of some availabilities: the `price`-th price of the
/// `slot`-th slot of the `court`-th court of the `day`-th day comes next.
pub struct AvailIter<'a> {
    pub avail: &'a Availabilities,
    pub day: usize,
    pub court: usize,
    pub slot: usize,
    pub price: usize,
}

impl<'a> AvailIter<'a> {
    pub open spec fn days(&self) -> Seq<(Seq<char>, DayModel)> {
        self.avail@
    }

    pub open spec fn cur_courts(&self) -> Seq<CourtModel> {
        self.days()[self.day as int].1.courts
    }

    pub open spec fn cur_slots(&self) -> Seq<SlotModel> {
        court_slots(self.cur_courts()[self.court as int])
    }

    pub open spec fn cur_prices(&self) -> Seq<PriceModel> {
        self.cur_slots()[self.slot as int].prices
    }

    pub open spec fn cur_key(&self) -> Seq<char> {
        self.days()[self.day as int].0
    }

    /// The indices point into the lists they walk through, or just past their end.
    pub open spec fn inv(&self) -> bool {
        &&& self.day <= self.days().len()
        &&& self.day < self.days().len() ==> {
            &&& self.court <= self.cur_courts().len()
            &&& self.court < self.cur_courts().len() ==> {
                &&& self.slot <= self.cur_slots().len()
                &&& self.slot < self.cur_slots().len() ==> self.price <= self.cur_prices().len()
                &&& self.slot == self.cur_slots().len() ==> self.price == 0
            }
            &&& self.court == self.cur_courts().len() ==> self.slot == 0 && self.price == 0
        }
        &&& self.day == self.days().len() ==> self.court == 0 && self.slot == 0 && self.price == 0
    }

    /// How many items of `items(self.avail@)` the walk has gone past.
    pub open spec fn position(&self) -> int {
        concat_map(self.days().take(self.day as int), |e: (Seq<char>, DayModel)| day_items(e.0, e.1)).len()
            + if self.day < self.days().len() {
            concat_map(
                self.cur_courts().take(self.court as int),
                |c: CourtModel| court_items(self.cur_key(), c),
            ).len() + if self.court < self.cur_courts().len() {
                concat_map(
                    self.cur_slots().take(self.slot as int),
                    |s: SlotModel| slot_items(self.cur_key(), self.cur_courts()[self.court as int], s),
                ).len() + self.price
            } else {
                0
            }
        } else {
            0
        }
    }

    pub open spec fn measure_courts(&self) -> int {
        if self.day < self.days().len() {
            self.cur_courts().len() - self.court
        } else {
            0
        }
    }

    pub open spec fn measure_slots(&self) -> int {
        if self.day < self.days().len() && self.court < self.cur_courts().len() {
            self.cur_slots().len() - self.slot
        } else {
            0
        }
    }

    pub open spec fn measure_prices(&self) -> int {
        if self.day < self.days().len() && self.court < self.cur_courts().len() && self.slot
            < self.cur_slots().len() {
            self.cur_prices().len() - self.price
        } else {
            0
        }
    }
}


impl<'a> AvailIter<'a> {
    /// The next price option of the walk, with its day, court and slot; nothing once every
    /// item of `items(avail@)` has come out.
    pub fn next(&mut self) -> (r: Option<(&'a String, &'a Court, &'a Slot, &'a Price)>)
        requires
            old(self).inv(),
            old(self).avail.courts_have_slots(),
        ensures
            final(self).avail == old(self).avail,
            final(self).inv(),
            old(self).position() <= items(old(self).avail@).len(),
            match r {
                Some((k, c, s, p)) => {
                    &&& old(self).position() < items(old(self).avail@).len()
                    &&& final(self).position() == old(self).position() + 1
                    &&& items(old(self).avail@)[old(self).position()] == (k@, c@, s@, p@)
                },
                None => {
                    &&& old(self).position() == items(old(self).avail@).len()
                    &&& final(self).position() == old(self).position()
                },
            },
    {
        let avail: &'a Availabilities = self.avail;
        let ghost pos0 = self.position();
        let ghost days = avail@;
        let ghost fd = |e: (Seq<char>, DayModel)| day_items(e.0, e.1);
        loop
            invariant
                self.avail == avail,
                days == avail@,
                avail.courts_have_slots(),
                self.inv(),
                self.position() == pos0,
                pos0 == old(self).position(),
                old(self).avail == avail,
                fd == (|e: (Seq<char>, DayModel)| day_items(e.0, e.1)),
            decreases
                avail@.len() - self.day,
                self.measure_courts(),
                self.measure_slots(),
                self.measure_prices(),
        {
            if self.day >= avail.len() {
                assert(days.take(days.len() as int) =~= days);
                return None;
            }
            let d = self.day;
            let day = avail.day_at(d);
            let courts = day.courts();
            let ghost k = days[d as int].0;
            let ghost cm = days[d as int].1.courts;
            let ghost fc = |c: CourtModel| court_items(k, c);
            assert(cm.take(0) =~= Seq::<CourtModel>::empty());
            if self.court >= courts.len() {
                proof {
                    lemma_concat_map_take(days, fd, d as int);
                    assert(cm.take(cm.len() as int) =~= cm);
                    if d + 1 < days.len() {
                        assert(days[d + 1].1.courts.take(0) =~= Seq::<CourtModel>::empty());
                    }
                }
                self.day = d + 1;
                self.court = 0;
                self.slot = 0;
                self.price = 0;
                continue;
            }
            let c = self.court;
            let court = &courts[c];
            assert(court@ == cm[c as int]);
            assert(days[d as int].1.courts[c as int].activities.len() > 0);
            let slots = court.slots();
            let ghost sm = court_slots(cm[c as int]);
            let ghost fs = |s: SlotModel| slot_items(k, cm[c as int], s);
            assert(sm.take(0) =~= Seq::<SlotModel>::empty());
            if self.slot >= slots.len() {
                proof {
                    lemma_concat_map_take(cm, fc, c as int);
                    assert(sm.take(sm.len() as int) =~= sm);
                    if c + 1 < cm.len() {
                        assert(court_slots(cm[c + 1]).take(0) =~= Seq::<SlotModel>::empty());
                    }
                }
                self.court = c + 1;
                self.slot = 0;
                self.price = 0;
                continue;
            }
            let si = self.slot;
            let slot = &slots[si];
            assert(slot@ == sm[si as int]);
            let prices = slot.prices();
            if self.price >= prices.len() {
                proof {
                    lemma_concat_map_take(sm, fs, si as int);
                }
                self.slot = si + 1;
                self.price = 0;
                continue;
            }
            let pi = self.price;
            let price = &prices[pi];
            proof {
                let a = concat_map(days.take(d as int), fd).len();
                let b = concat_map(cm.take(c as int), fc).len();
                let cc = concat_map(sm.take(si as int), fs).len();
                assert(fs(sm[si as int])[pi as int] == (k, cm[c as int], sm[si as int], price@));
                lemma_concat_map_index(sm, fs, si as int, pi as int);
                lemma_concat_map_index(cm, fc, c as int, cc + pi);
                lemma_concat_map_index(days, fd, d as int, b + cc + pi);
                assert(pos0 == a + b + cc + pi);
            }
            self.price = pi + 1;
            return Some((avail.date_at(d), court, slot, price));
        }
    }

    /// The walk never goes past the end of the items.
    pub proof fn lemma_position_bound(&self)
        requires
            self.inv(),
        ensures
            0 <= self.position() <= items(self.avail@).len(),
    {
        let days = self.days();
        let d = self.day as int;
        let fd = |e: (Seq<char>, DayModel)| day_items(e.0, e.1);
        lemma_concat_map_take_le(days, fd, d);
        if d < days.len() {
            let k = days[d].0;
            let cm = days[d].1.courts;
            let c = self.court as int;
            let fc = |x: CourtModel| court_items(k, x);
            lemma_concat_map_take_le(cm, fc, c);
            if c < cm.len() {
                let sm = court_slots(cm[c]);
                let si = self.slot as int;
                let fs = |x: SlotModel| slot_items(k, cm[c], x);
                lemma_concat_map_take_le(sm, fs, si);
            }
        }
    }

    /// How many items are left in the walk; the walk is used up.
    pub fn count(self) -> (r: usize)
        requires
            self.inv(),
            self.avail.courts_have_slots(),
            items(self.avail@).len() <= usize::MAX,
        ensures
            r == items(self.avail@).len() - self.position(),
    {
        let ghost avail = self.avail;
        let ghost start = self.position();
        let mut it = self;
        proof {
            it.lemma_position_bound();
        }
        let mut n: usize = 0;
        loop
            invariant
                it.avail == avail,
                it.inv(),
                avail.courts_have_slots(),
                items(avail@).len() <= usize::MAX,
                it.position() <= items(avail@).len(),
                n == it.position() - start,
                0 <= start <= it.position(),
                start == self.position(),
                avail == self.avail,
            decreases items(avail@).len() - it.position(),
        {
            match it.next() {
                Some(_) => {
                    n = n + 1;
                },
                None => {
                    return n;
                },
            }
        }
    }
}

} // verus!
