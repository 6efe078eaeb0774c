use crate::date::{parse_year_month, year_month_of};
use crate::order::{key_lt, label_less, lemma_key_lt_irreflexive, lemma_key_lt_total,
    lemma_key_lt_transitive};
use vstd::prelude::*;

verus! {

/// A group key as plain values: (location label, year, month).
pub type KeyView = (Seq<char>, i32, u32);

/// The key of one bucket of observations.
#[derive(Clone, Debug)]
pub struct GroupKey {
    pub location: String,
    pub year: i32,
    pub month: u32,
}

impl View for GroupKey {
    type V = KeyView;

    open spec fn view(&self) -> KeyView {
        (self.location@, self.year, self.month)
    }
}

/// The texts of a list of strings.
pub open spec fn string_views(v: Seq<String>) -> Seq<Seq<char>> {
    v.map_values(|s: String| s@)
}

/// The parts joined with `,` between neighbours.
pub open spec fn join_commas(parts: Seq<Seq<char>>) -> Seq<char>
    decreases parts.len(),
{
    if parts.len() == 0 {
        Seq::empty()
    } else if parts.len() == 1 {
        parts[0]
    } else {
        join_commas(parts.drop_last()) + seq![','] + parts.last()
    }
}

/// The label of the combined location when no target is given.
pub open spec fn all_label() -> Seq<char> {
    seq!['A', 'L', 'L']
}

/// The location label under which a row of `country` is grouped: the country
/// itself, or in aggregate mode the targets joined with commas (`ALL` for none).
pub open spec fn label_of(country: Seq<char>, targets: Seq<Seq<char>>, aggregate: bool) -> Seq<
    char,
> {
    if !aggregate {
        country
    } else if targets.len() == 0 {
        all_label()
    } else {
        join_commas(targets)
    }
}

/// A country passes the location filter when no target is given or it is one.
pub open spec fn location_selected(country: Seq<char>, targets: Seq<Seq<char>>) -> bool {
    targets.len() == 0 || targets.contains(country)
}

/// The group key of a row with the given parsed date and country, or `None`
/// where the date did not parse, the country is not selected, or the year lies
/// outside `start..=end`.
pub open spec fn key_of(
    date: Option<(i32, u32)>,
    country: Seq<char>,
    targets: Seq<Seq<char>>,
    start: i32,
    end: i32,
    aggregate: bool,
) -> Option<KeyView> {
    match date {
        Some((y, m)) => if location_selected(country, targets) && start <= y && y <= end {
            Some((label_of(country, targets, aggregate), y, m))
        } else {
            None
        },
        None => None,
    }
}

/// The view of an optional key.
pub open spec fn key_view_opt(k: Option<GroupKey>) -> Option<KeyView> {
    match k {
        Some(k) => Some(k@),
        None => None,
    }
}

/// Whether `country` is one of `targets`.
fn contains_location(targets: &Vec<String>, country: &str) -> (r: bool)
    ensures
        r == string_views(targets@).contains(country@),
{
    let c = country.to_owned();
    let mut i: usize = 0;
    while i < targets.len()
        invariant
            i <= targets.len(),
            c@ == country@,
            forall|j: int| 0 <= j < i ==> string_views(targets@)[j] != country@,
        decreases targets.len() - i,
    {
        if targets[i] == c {
            assert(string_views(targets@)[i as int] == country@);
            return true;
        }
        i = i + 1;
    }
    false
}

/// The location label of a row of `country`.
pub fn location_label(country: &str, targets: &Vec<String>, aggregate: bool) -> (r: String)
    ensures
        r@ == label_of(country@, string_views(targets@), aggregate),
{
    if !aggregate {
        return country.to_owned();
    }
    if targets.len() == 0 {
        proof {
            reveal_strlit("ALL");
        }
        return "ALL".to_owned();
    }
    let ghost tv = string_views(targets@);
    let mut out = targets[0].clone();
    assert(tv.subrange(0, 1) =~= seq![tv[0]]);
    let mut i: usize = 1;
    while i < targets.len()
        invariant
            1 <= i <= targets.len(),
            tv == string_views(targets@),
            out@ == join_commas(tv.subrange(0, i as int)),
        decreases targets.len() - i,
    {
        out.append(",");
        out.append(targets[i].as_str());
        proof {
            reveal_strlit(",");
            assert(tv.subrange(0, i + 1).drop_last() =~= tv.subrange(0, i as int));
        }
        i = i + 1;
    }
    assert(tv.subrange(0, targets.len() as int) =~= tv);
    out
}

/// The group key of a row whose date has already been parsed.
pub fn row_key_from_date(
    date: Option<(i32, u32)>,
    country: &str,
    targets: &Vec<String>,
    start_year: i32,
    end_year: i32,
    aggregate: bool,
) -> (r: Option<GroupKey>)
    ensures
        key_view_opt(r) == key_of(
            date,
            country@,
            string_views(targets@),
            start_year,
            end_year,
            aggregate,
        ),
{
    match date {
        Some((year, month)) => {
            let selected = targets.len() == 0 || contains_location(targets, country);
            if selected && start_year <= year && year <= end_year {
                let location = location_label(country, targets, aggregate);
                Some(GroupKey { location, year, month })
            } else {
                None
            }
        },
        None => None,
    }
}

/// The group key of a row with a `YYYY-MM-DD` date string.
pub fn row_key(
    date: &str,
    country: &str,
    targets: &Vec<String>,
    start_year: i32,
    end_year: i32,
    aggregate: bool,
) -> (r: Option<GroupKey>)
    ensures
        key_view_opt(r) == key_of(
            year_month_of(date@),
            country@,
            string_views(targets@),
            start_year,
            end_year,
            aggregate,
        ),
{
    let parsed = parse_year_month(date);
    row_key_from_date(parsed, country, targets, start_year, end_year, aggregate)
}


/// One bucket: its key and its values in the order they were added.
#[derive(Clone, Debug)]
pub struct Group<T> {
    pub key: GroupKey,
    pub values: Vec<T>,
}

impl<T> View for Group<T> {
    type V = (KeyView, Seq<T>);

    open spec fn view(&self) -> (KeyView, Seq<T>) {
        (self.key@, self.values@)
    }
}

/// The views of a list of groups.
pub open spec fn group_views<T>(gs: Seq<Group<T>>) -> Seq<(KeyView, Seq<T>)> {
    gs.map_values(|g: Group<T>| g@)
}

/// Keys in strictly increasing order (so each key at most once).
pub open spec fn keys_ascending<T>(gs: Seq<(KeyView, Seq<T>)>) -> bool {
    forall|i: int, j: int| 0 <= i < j < gs.len() ==> key_lt(#[trigger] gs[i].0, #[trigger] gs[j].0)
}

/// Every group holds at least one value.
pub open spec fn groups_non_empty<T>(gs: Seq<(KeyView, Seq<T>)>) -> bool {
    forall|i: int| 0 <= i < gs.len() ==> (#[trigger] gs[i]).1.len() > 0
}

/// The values held under key `k`, empty where no group has that key.
pub open spec fn values_under<T>(gs: Seq<(KeyView, Seq<T>)>, k: KeyView) -> Seq<T> {
    if exists|i: int| 0 <= i < gs.len() && gs[i].0 == k {
        gs[choose|i: int| 0 <= i < gs.len() && gs[i].0 == k].1
    } else {
        Seq::empty()
    }
}

proof fn lemma_values_at<T>(gs: Seq<(KeyView, Seq<T>)>, i: int)
    requires
        keys_ascending(gs),
        0 <= i < gs.len(),
    ensures
        values_under(gs, gs[i].0) == gs[i].1,
{
    let k = gs[i].0;
    let j = choose|j: int| 0 <= j < gs.len() && gs[j].0 == k;
    lemma_key_lt_irreflexive(k);
    if j < i {
        assert(key_lt(gs[j].0, gs[i].0));
    } else if i < j {
        assert(key_lt(gs[i].0, gs[j].0));
    }
}

/// Groups of values under distinct keys, kept in ascending key order.
pub struct GroupAccumulator<T> {
    groups: Vec<Group<T>>,
}

impl<T> View for GroupAccumulator<T> {
    type V = Seq<(KeyView, Seq<T>)>;

    closed spec fn view(&self) -> Seq<(KeyView, Seq<T>)> {
        group_views(self.groups@)
    }
}

impl<T> GroupAccumulator<T> {
    /// Keys ascending and no group empty.
    pub open spec fn wf(&self) -> bool {
        keys_ascending(self@) && groups_non_empty(self@)
    }

    /// An accumulator without groups.
    pub fn new() -> (r: Self)
        ensures
            r.wf(),
            r@.len() == 0,
    {
        GroupAccumulator { groups: Vec::new() }
    }

    /// Number of groups.
    pub fn len(&self) -> (r: usize)
        ensures
            r == self@.len(),
    {
        self.groups.len()
    }

    /// The first index whose key is not below `key`.
    fn position(&self, key: &GroupKey) -> (r: usize)
        requires
            self.wf(),
        ensures
            r <= self@.len(),
            forall|j: int| 0 <= j < r ==> key_lt(#[trigger] self@[j].0, key@),
            forall|j: int| r <= j < self@.len() ==> !key_lt(#[trigger] self@[j].0, key@),
    {
        let mut lo: usize = 0;
        let mut hi: usize = self.groups.len();
        while lo < hi
            invariant
                self.wf(),
                lo <= hi <= self@.len(),
                self@.len() == self.groups@.len(),
                forall|j: int| 0 <= j < lo ==> key_lt(#[trigger] self@[j].0, key@),
                forall|j: int| hi <= j < self@.len() ==> !key_lt(#[trigger] self@[j].0, key@),
            decreases hi - lo,
        {
            let mid = lo + (hi - lo) / 2;
            assert(self@[mid as int].0 == self.groups@[mid as int].key@);
            if key_less(&self.groups[mid].key, key) {
                assert forall|j: int| 0 <= j <= mid implies key_lt(#[trigger] self@[j].0, key@) by {
                    if j < mid {
                        lemma_key_lt_transitive(self@[j].0, self@[mid as int].0, key@);
                    }
                }
                lo = mid + 1;
            } else {
                assert forall|j: int| mid <= j < self@.len() implies !key_lt(
                    #[trigger] self@[j].0,
                    key@,
                ) by {
                    if mid < j && key_lt(self@[j].0, key@) {
                        lemma_key_lt_transitive(self@[mid as int].0, self@[j].0, key@);
                    }
                }
                hi = mid;
            }
        }
        lo
    }

    /// Appends `value` to the group of `key`, opening that group where it is new.
    pub fn add(&mut self, key: GroupKey, value: T)
        requires
            old(self).wf(),
        ensures
            final(self).wf(),
            forall|k: KeyView|
                #![trigger values_under(final(self)@, k)]
                values_under(final(self)@, k) == if k == key@ {
                    values_under(old(self)@, k).push(value)
                } else {
                    values_under(old(self)@, k)
                },
    {
        let pos = self.position(&key);
        let ghost pre = self@;
        if pos < self.groups.len() && keys_equal(&self.groups[pos].key, &key) {
            let mut g = Group {
                key: GroupKey { location: String::new(), year: 0, month: 0 },
                values: Vec::new(),
            };
            self.groups.set_and_swap(pos, &mut g);
            g.values.push(value);
            self.groups.set_and_swap(pos, &mut g);
            proof {
                assert(self@ =~= pre.update(pos as int, (key@, pre[pos as int].1.push(value))));
                assert forall|k: KeyView| #[trigger]
                    values_under(self@, k) == if k == key@ {
                        values_under(pre, k).push(value)
                    } else {
                        values_under(pre, k)
                    } by {
                    lemma_values_at(pre, pos as int);
                    lemma_values_at(self@, pos as int);
                    if k != key@ {
                        if exists|i: int| 0 <= i < pre.len() && pre[i].0 == k {
                            let i = choose|i: int| 0 <= i < pre.len() && pre[i].0 == k;
                            lemma_values_at(pre, i);
                            lemma_values_at(self@, i);
                        }
                    }
                }
            }
        } else {
            proof {
                if pos < pre.len() {
                    assert(pre[pos as int].0 != key@);
                }
            }
            let mut values = Vec::new();
            values.push(value);
            self.groups.insert(pos, Group { key, values });
            proof {
                assert(self@ =~= pre.insert(pos as int, (key@, seq![value])));
                assert forall|i: int, j: int| 0 <= i < j < self@.len() implies key_lt(
                    #[trigger] self@[i].0,
                    #[trigger] self@[j].0,
                ) by {
                    if i == pos && j != pos {
                        let oj = pre[j - 1].0;
                        if oj != key@ {
                            lemma_key_lt_total(oj, key@);
                        }
                        if j - 1 > pos {
                            assert(key_lt(pre[pos as int].0, oj));
                            if key_lt(oj, key@) {
                                lemma_key_lt_transitive(pre[pos as int].0, oj, key@);
                            }
                        }
                    } else if i < pos && j > pos {
                        assert(key_lt(pre[i].0, key@));
                        lemma_key_lt_total(pre[j - 1].0, key@);
                        if pre[j - 1].0 != key@ && !key_lt(pre[j - 1].0, key@) {
                            lemma_key_lt_transitive(pre[i].0, key@, pre[j - 1].0);
                        }
                    } else if j < pos {
                        assert(key_lt(pre[i].0, pre[j].0));
                    } else if i > pos {
                        assert(key_lt(pre[i - 1].0, pre[j - 1].0));
                    }
                }
                assert forall|k: KeyView| #[trigger]
                    values_under(self@, k) == if k == key@ {
                        values_under(pre, k).push(value)
                    } else {
                        values_under(pre, k)
                    } by {
                    lemma_values_at(self@, pos as int);
                    if k == key@ {
                        assert(!exists|i: int| 0 <= i < pre.len() && pre[i].0 == k) by {
                            if exists|i: int| 0 <= i < pre.len() && pre[i].0 == k {
                                let i = choose|i: int| 0 <= i < pre.len() && pre[i].0 == k;
                                lemma_key_lt_irreflexive(k);
                                if i > pos {
                                    assert(key_lt(pre[pos as int].0, pre[i].0));
                                    lemma_key_lt_total(pre[pos as int].0, k);
                                }
                            }
                        }
                        assert(seq![value] =~= Seq::<T>::empty().push(value));
                    } else {
                        if exists|i: int| 0 <= i < pre.len() && pre[i].0 == k {
                            let i = choose|i: int| 0 <= i < pre.len() && pre[i].0 == k;
                            lemma_values_at(pre, i);
                            let ni = if i < pos { i } else { i + 1 };
                            assert(self@[ni].0 == k);
                            lemma_values_at(self@, ni);
                        } else {
                            assert(!exists|i: int| 0 <= i < self@.len() && self@[i].0 == k) by {
                                if exists|i: int| 0 <= i < self@.len() && self@[i].0 == k {
                                    let i = choose|i: int| 0 <= i < self@.len() && self@[i].0 == k;
                                    if i < pos {
                                        assert(pre[i].0 == k);
                                    } else if i > pos {
                                        assert(pre[i - 1].0 == k);
                                    }
                                }
                            }
                        }
                    }
                }
            }
        }
    }

    /// The groups, in ascending key order.
    pub fn into_groups(self) -> (r: Vec<Group<T>>)
        ensures
            group_views(r@) == self@,
    {
        self.groups
    }
}

/// Whether `a` comes before `b`: by location text, then year, then month.
pub fn key_less(a: &GroupKey, b: &GroupKey) -> (r: bool)
    ensures
        r == key_lt(a@, b@),
{
    if label_less(&a.location, &b.location) {
        true
    } else if a.location == b.location {
        a.year < b.year || (a.year == b.year && a.month < b.month)
    } else {
        false
    }
}

/// Whether two keys are equal.
pub fn keys_equal(a: &GroupKey, b: &GroupKey) -> (r: bool)
    ensures
        r == (a@ == b@),
{
    a.location == b.location && a.year == b.year && a.month == b.month
}

/// A row as the reader hands it over: the date text, the country code, and the
/// temperature after validation and unit conversion (`None` where it was rejected).
#[derive(Clone, Debug)]
pub struct Observation<T> {
    pub date: String,
    pub country: String,
    pub value: Option<T>,
}

impl<T> View for Observation<T> {
    type V = (Seq<char>, Seq<char>, Option<T>);

    open spec fn view(&self) -> (Seq<char>, Seq<char>, Option<T>) {
        (self.date@, self.country@, self.value)
    }
}

/// The views of a list of rows.
pub open spec fn observation_views<T>(rows: Seq<Observation<T>>) -> Seq<
    (Seq<char>, Seq<char>, Option<T>),
> {
    rows.map_values(|o: Observation<T>| o@)
}

/// Which rows are kept: (targets, first year, last year, aggregate mode).
pub type SelectionView = (Seq<Seq<char>>, i32, i32, bool);

/// The group key of a row under a selection.
pub open spec fn observation_key<T>(
    row: (Seq<char>, Seq<char>, Option<T>),
    sel: SelectionView,
) -> Option<KeyView> {
    key_of(year_month_of(row.0), row.1, sel.0, sel.1, sel.2, sel.3)
}

/// The accepted values of the rows whose key is `k`, in row order.
pub open spec fn collected<T>(
    rows: Seq<(Seq<char>, Seq<char>, Option<T>)>,
    sel: SelectionView,
    k: KeyView,
) -> Seq<T>
    decreases rows.len(),
{
    if rows.len() == 0 {
        Seq::empty()
    } else {
        let before = collected(rows.drop_last(), sel, k);
        let row = rows.last();
        if observation_key(row, sel) == Some(k) && row.2 is Some {
            before.push(row.2->0)
        } else {
            before
        }
    }
}

/// Rows handed over in two parts contribute to each key exactly what each part
/// contributes on its own, the first part's values first: a group's count is the
/// sum of the counts of its rows in both parts.
pub proof fn lemma_collected_concat<T>(
    a: Seq<(Seq<char>, Seq<char>, Option<T>)>,
    b: Seq<(Seq<char>, Seq<char>, Option<T>)>,
    sel: SelectionView,
    k: KeyView,
)
    ensures
        collected(a + b, sel, k) == collected(a, sel, k) + collected(b, sel, k),
    decreases b.len(),
{
    if b.len() == 0 {
        assert(a + b =~= a);
        assert(collected(a, sel, k) + collected(b, sel, k) =~= collected(a, sel, k));
    } else {
        lemma_collected_concat(a, b.drop_last(), sel, k);
        assert((a + b).drop_last() =~= a + b.drop_last());
        assert((a + b).last() == b.last());
        let row = b.last();
        if observation_key(row, sel) == Some(k) && row.2 is Some {
            assert(collected(a, sel, k) + collected(b.drop_last(), sel, k).push(row.2->0)
                =~= (collected(a, sel, k) + collected(b.drop_last(), sel, k)).push(row.2->0));
        }
    }
}

/// The number of rows that pass the date, location and year filters.
pub open spec fn matched_count<T>(
    rows: Seq<(Seq<char>, Seq<char>, Option<T>)>,
    sel: SelectionView,
) -> nat
    decreases rows.len(),
{
    if rows.len() == 0 {
        0
    } else {
        matched_count(rows.drop_last(), sel) + if observation_key(rows.last(), sel) is Some {
            1nat
        } else {
            0nat
        }
    }
}

/// Buckets the rows by (location, year, month). A row counts when its date
/// parses, its country is selected and its year lies in `start_year..=end_year`;
/// its value joins the bucket of its key when it was accepted. The buckets come
/// in ascending key order, none empty, each with its values in row order; the
/// second result is the number of rows that passed the filters.
pub fn group_observations<T: Copy>(
    rows: &Vec<Observation<T>>,
    targets: &Vec<String>,
    start_year: i32,
    end_year: i32,
    aggregate: bool,
) -> (r: (Vec<Group<T>>, usize))
    ensures
        keys_ascending(group_views(r.0@)),
        groups_non_empty(group_views(r.0@)),
        forall|k: KeyView|
            #![trigger values_under(group_views(r.0@), k)]
            values_under(group_views(r.0@), k) == collected(
                observation_views(rows@),
                (string_views(targets@), start_year, end_year, aggregate),
                k,
            ),
        r.1 == matched_count(
            observation_views(rows@),
            (string_views(targets@), start_year, end_year, aggregate),
        ),
{
    let ghost sel = (string_views(targets@), start_year, end_year, aggregate);
    let ghost all = observation_views(rows@);
    let mut acc: GroupAccumulator<T> = GroupAccumulator::new();
    let mut matched: usize = 0;
    let mut i: usize = 0;
    while i < rows.len()
        invariant
            acc.wf(),
            i <= rows.len(),
            matched <= i,
            sel == (string_views(targets@), start_year, end_year, aggregate),
            all == observation_views(rows@),
            forall|k: KeyView|
                #![trigger values_under(acc@, k)]
                values_under(acc@, k) == collected(all.take(i as int), sel, k),
            matched == matched_count(all.take(i as int), sel),
        decreases rows.len() - i,
    {
        let row = &rows[i];
        let key = row_key(row.date.as_str(), row.country.as_str(), targets, start_year, end_year, aggregate);
        let ghost before = acc@;
        proof {
            assert(all.take(i + 1).drop_last() =~= all.take(i as int));
            assert(all.take(i + 1).last() == all[i as int]);
            assert(all[i as int] == row@);
        }
        match key {
            Some(key) => {
                matched = matched + 1;
                match row.value {
                    Some(v) => acc.add(key, v),
                    None => {},
                }
            },
            None => {},
        }
        proof {
            assert forall|k: KeyView| #[trigger]
                values_under(acc@, k) == collected(all.take(i + 1), sel, k) by {
                assert(values_under(before, k) == collected(all.take(i as int), sel, k));
            }
        }
        i = i + 1;
    }
    proof {
        assert(all.take(rows.len() as int) =~= all);
    }
    (acc.into_groups(), matched)
}

} // verus!
