use vstd::prelude::*;

use crate::order::{compare_dates, lemma_lt_irreflexive};
use crate::state::{copy_row, put_rows, rows_view, DateRows, Row, RowModel, State};

verus! {

/// Whether `(i, k)` names a task of `es`.
pub open spec fn in_parts(es: Seq<DateRows>, i: int, k: int) -> bool {
    0 <= i < es.len() && 0 <= k < es[i].rows@.len()
}

/// The id of the task at `(i, k)` of `es`.
pub open spec fn part_id(es: Seq<DateRows>, i: int, k: int) -> u32 {
    es[i].rows@[k].id
}

/// Position `(j, l)` comes before `(i, k)` when read date by date.
pub open spec fn before(j: int, l: int, i: int, k: int) -> bool {
    j < i || (j == i && l < k)
}

/// Whether the dates of `es` are pairwise distinct.
pub open spec fn dates_distinct(es: Seq<DateRows>) -> bool {
    forall|i: int, j: int| 0 <= i < j < es.len() ==> #[trigger] es[i].date@ != #[trigger] es[j].date@
}

/// Whether `es` can make a store with `max_id`: distinct dates, every id at
/// most `max_id`, and no id twice.
pub open spec fn parts_ok(max_id: u32, es: Seq<DateRows>) -> bool {
    &&& dates_distinct(es)
    &&& forall|i: int, k: int| #[trigger] in_parts(es, i, k) ==> part_id(es, i, k) <= max_id
    &&& forall|i: int, k: int, j: int, l: int|
        #![trigger part_id(es, i, k), part_id(es, j, l)]
        in_parts(es, i, k) && in_parts(es, j, l) && part_id(es, i, k) == part_id(es, j, l) ==> i == j && k == l
}

/// The map that `es` describes; a date without tasks is left out.
pub open spec fn parts_map(es: Seq<DateRows>) -> Map<Seq<char>, Seq<RowModel>>
    decreases es.len(),
{
    if es.len() == 0 {
        Map::empty()
    } else {
        put_rows(parts_map(es.drop_last()), es.last().date@, rows_view(es.last().rows@))
    }
}

/// The ids found at positions before `(i, k)`.
pub open spec fn ids_before(es: Seq<DateRows>, i: int, k: int) -> Set<u32> {
    Set::new(
        |id: u32|
            exists|j: int, l: int| #[trigger] in_parts(es, j, l) && before(j, l, i, k) && part_id(es, j, l) == id,
    )
}

/// What `parts_map` holds when the dates of `es` are distinct: each date
/// with tasks, mapped to them, and nothing else.
pub proof fn lemma_parts_map(es: Seq<DateRows>)
    requires
        dates_distinct(es),
    ensures
        forall|j: int|
            0 <= j < es.len() && es[j].rows@.len() > 0 ==> parts_map(es).contains_key(#[trigger] es[j].date@)
                && parts_map(es)[es[j].date@] == rows_view(es[j].rows@),
        forall|j: int| 0 <= j < es.len() && es[j].rows@.len() == 0 ==> !parts_map(es).contains_key(#[trigger] es[j].date@),
        forall|d: Seq<char>|
            parts_map(es).contains_key(d) ==> exists|j: int| 0 <= j < es.len() && #[trigger] es[j].date@ == d,
    decreases es.len(),
{
    if es.len() > 0 {
        let p = es.drop_last();
        assert forall|i: int, j: int| 0 <= i < j < p.len() implies #[trigger] p[i].date@ != #[trigger] p[j].date@ by {
            assert(es[i].date@ != es[j].date@);
        }
        lemma_parts_map(p);
        let n = es.len() - 1;
        assert forall|j: int| 0 <= j < es.len() && es[j].rows@.len() > 0 implies parts_map(es).contains_key(#[trigger] es[j].date@)
            && parts_map(es)[es[j].date@] == rows_view(es[j].rows@) by {
            if j < n {
                assert(p[j] == es[j]);
                assert(es[j].date@ != es[n].date@);
            }
        }
        assert forall|j: int| 0 <= j < es.len() && es[j].rows@.len() == 0 implies !parts_map(es).contains_key(#[trigger] es[j].date@) by {
            if j < n {
                assert(p[j] == es[j]);
                assert(es[j].date@ != es[n].date@);
            }
        }
        assert forall|d: Seq<char>| parts_map(es).contains_key(d) implies exists|j: int| 0 <= j < es.len() && #[trigger] es[j].date@ == d by {
            if d != es[n].date@ {
                assert(parts_map(p).contains_key(d));
                let j = choose|j: int| 0 <= j < p.len() && #[trigger] p[j].date@ == d;
                assert(es[j] == p[j]);
            } else {
                assert(es[n].date@ == d);
            }
        }
    }
}

/// Whether the dates of `es` are pairwise distinct.
fn check_dates_distinct(es: &Vec<DateRows>) -> (r: bool)
    ensures
        r == dates_distinct(es@),
{
    let mut i: usize = 0;
    while i < es.len()
        invariant
            i <= es@.len(),
            forall|a: int, b: int| 0 <= a < b < i ==> #[trigger] es@[a].date@ != #[trigger] es@[b].date@,
        decreases es@.len() - i,
    {
        let mut j: usize = 0;
        while j < i
            invariant
                i < es@.len(),
                j <= i,
                forall|a: int, b: int| 0 <= a < b < i ==> #[trigger] es@[a].date@ != #[trigger] es@[b].date@,
                forall|a: int| 0 <= a < j ==> #[trigger] es@[a].date@ != es@[i as int].date@,
            decreases i - j,
        {
            if compare_dates(es[j].date.as_str(), es[i].date.as_str()) == 0 {
                return false;
            }
            j = j + 1;
        }
        i = i + 1;
    }
    true
}

/// Whether the id at `(i, k)` already occurs at an earlier position.
fn seen_before(es: &Vec<DateRows>, i: usize, k: usize) -> (r: bool)
    requires
        in_parts(es@, i as int, k as int),
    ensures
        r == ids_before(es@, i as int, k as int).contains(part_id(es@, i as int, k as int)),
{
    let id = es[i].rows[k].id;
    let n = es.len();
    let mut j: usize = 0;
    while j <= i
        invariant
            in_parts(es@, i as int, k as int),
            id == part_id(es@, i as int, k as int),
            n == es@.len(),
            i < n,
            j <= i + 1,
            forall|a: int, b: int| #[trigger] in_parts(es@, a, b) && a < j && before(a, b, i as int, k as int)
                ==> part_id(es@, a, b) != id,
        decreases i + 1 - j,
    {
        let rows = &es[j].rows;
        let end = if j < i { rows.len() } else { k };
        let mut l: usize = 0;
        while l < end
            invariant
                in_parts(es@, i as int, k as int),
                id == part_id(es@, i as int, k as int),
                n == es@.len(),
                i < n,
                j <= i,
                rows@ == es@[j as int].rows@,
                end == (if j < i { rows@.len() } else { k as nat }),
                l <= end,
                forall|a: int, b: int| #[trigger] in_parts(es@, a, b) && a < j && before(a, b, i as int, k as int)
                    ==> part_id(es@, a, b) != id,
                forall|b: int| 0 <= b < l ==> #[trigger] rows@[b].id != id,
            decreases end - l,
        {
            if rows[l].id == id {
                proof {
                    assert(in_parts(es@, j as int, l as int));
                }
                return true;
            }
            l = l + 1;
        }
        proof {
            assert forall|a: int, b: int| #[trigger] in_parts(es@, a, b) && a < j + 1 && before(a, b, i as int, k as int)
                implies part_id(es@, a, b) != id by {
                if a == j {
                    assert(rows@[b].id != id);
                }
            }
        }
        j = j + 1;
    }
    proof {
        assert(!ids_before(es@, i as int, k as int).contains(id));
    }
    false
}

/// Whether `es` can make a store with `max_id`.
fn check_parts(max_id: u32, es: &Vec<DateRows>) -> (r: bool)
    ensures
        r == parts_ok(max_id, es@),
{
    if !check_dates_distinct(es) {
        return false;
    }
    let mut i: usize = 0;
    while i < es.len()
        invariant
            i <= es@.len(),
            forall|a: int, b: int| #[trigger] in_parts(es@, a, b) && a < i ==> part_id(es@, a, b) <= max_id
                && !ids_before(es@, a, b).contains(part_id(es@, a, b)),
        decreases es@.len() - i,
    {
        let mut k: usize = 0;
        while k < es[i].rows.len()
            invariant
                i < es@.len(),
                k <= es@[i as int].rows@.len(),
                forall|a: int, b: int| #[trigger] in_parts(es@, a, b) && before(a, b, i as int, k as int)
                    ==> part_id(es@, a, b) <= max_id && !ids_before(es@, a, b).contains(part_id(es@, a, b)),
            decreases es@[i as int].rows@.len() - k,
        {
            if es[i].rows[k].id > max_id {
                proof { assert(in_parts(es@, i as int, k as int)); }
                return false;
            }
            if seen_before(es, i, k) {
                proof {
                    let (j, l) = choose|j: int, l: int| #[trigger] in_parts(es@, j, l) && before(j, l, i as int, k as int)
                        && part_id(es@, j, l) == part_id(es@, i as int, k as int);
                    assert(part_id(es@, i as int, k as int) == part_id(es@, j, l));
                }
                return false;
            }
            k = k + 1;
        }
        i = i + 1;
    }
    proof {
        assert forall|a: int, b: int, c: int, d: int|
            #![trigger part_id(es@, a, b), part_id(es@, c, d)]
            in_parts(es@, a, b) && in_parts(es@, c, d) && part_id(es@, a, b) == part_id(es@, c, d)
            implies a == c && b == d by {
            if before(a, b, c, d) {
                assert(ids_before(es@, c, d).contains(part_id(es@, a, b)));
            } else if before(c, d, a, b) {
                assert(ids_before(es@, a, b).contains(part_id(es@, c, d)));
            }
        }
    }
    true
}

impl State {
    /// Rebuilds a store from its parts: `Some` exactly when the parts are
    /// consistent (distinct dates, ids unique and at most `max_id`).
    pub fn from_parts(max_id: u32, entries: Vec<DateRows>, cur_date: String) -> (r: Option<State>)
        ensures
            r is Some <==> parts_ok(max_id, entries@),
            r matches Some(s) ==> s.wf() && s.max_id == max_id && s.cur_date@ == cur_date@
                && s.tasks() == parts_map(entries@),
    {
        if !check_parts(max_id, &entries) {
            return None;
        }
        let ghost es = entries@;
        let ghost cd = cur_date@;
        let mut s = State::with_date(cur_date);
        proof {
            assert(s.dates().len() == 0);
            assert(s.buckets@.len() == 0);
        }
        s.max_id = max_id;
        proof {
            assert(s.ids() =~= Set::<u32>::empty());
            assert(ids_before(es, 0, 0) =~= Set::<u32>::empty());
            assert(s.wf());
        }
        let mut i: usize = 0;
        while i < entries.len()
            invariant
                es == entries@,
                parts_ok(max_id, es),
                i <= es.len(),
                s.wf(),
                s.max_id == max_id,
                s.cur_date@ == cd,
                s.tasks() == parts_map(es.take(i as int)),
                s.ids() == ids_before(es, i as int, 0),
            decreases es.len() - i,
        {
            let ghost d = es[i as int].date@;
            let ghost pm = parts_map(es.take(i as int));
            proof {
                let t = es.take(i as int);
                assert forall|a: int, b: int| 0 <= a < b < t.len() implies #[trigger] t[a].date@ != #[trigger] t[b].date@ by {
                    assert(es[a].date@ != es[b].date@);
                }
                lemma_parts_map(t);
                if pm.contains_key(d) {
                    let j = choose|j: int| 0 <= j < t.len() && #[trigger] t[j].date@ == d;
                    assert(es[j].date@ != es[i as int].date@);
                }
                assert(s.tasks() =~= put_rows(pm, d, rows_view(es[i as int].rows@.take(0))));
            }
            let mut k: usize = 0;
            while k < entries[i].rows.len()
                invariant
                    es == entries@,
                    parts_ok(max_id, es),
                    i < es.len(),
                    k <= es[i as int].rows@.len(),
                    d == es[i as int].date@,
                    pm == parts_map(es.take(i as int)),
                    s.wf(),
                    s.max_id == max_id,
                    s.cur_date@ == cd,
                    s.tasks() == put_rows(pm, d, rows_view(es[i as int].rows@.take(k as int))),
                    s.ids() == ids_before(es, i as int, k as int),
                decreases es[i as int].rows@.len() - k,
            {
                let row = copy_row(&entries[i].rows[k]);
                let ghost before_push = s;
                proof {
                    assert(in_parts(es, i as int, k as int));
                    assert(row.id == part_id(es, i as int, k as int));
                    if ids_before(es, i as int, k as int).contains(row.id) {
                        let (j, l) = choose|j: int, l: int| #[trigger] in_parts(es, j, l) && before(j, l, i as int, k as int)
                            && part_id(es, j, l) == row.id;
                        assert(part_id(es, j, l) == part_id(es, i as int, k as int));
                    }
                    assert forall|a: int, b: int| #[trigger] s.valid_at(a, b) implies s.row_at(a, b).id != row.id by {
                        if s.row_at(a, b).id == row.id {
                            assert(s.ids().contains(row.id));
                        }
                    }
                }
                s.push_row(entries[i].date.clone(), row);
                proof {
                    let tk = rows_view(es[i as int].rows@.take(k as int));
                    let tk1 = rows_view(es[i as int].rows@.take(k + 1));
                    assert(tk1 =~= tk.push(row@));
                    assert(before_push.rows_on(d) =~= tk);
                    assert(s.tasks() =~= put_rows(pm, d, tk1));
                    assert forall|id: u32| #[trigger] ids_before(es, i as int, k + 1).contains(id)
                        == ids_before(es, i as int, k as int).insert(row.id).contains(id) by {
                        if ids_before(es, i as int, k + 1).contains(id) {
                            let (j, l) = choose|j: int, l: int| #[trigger] in_parts(es, j, l) && before(j, l, i as int, k + 1)
                                && part_id(es, j, l) == id;
                            if before(j, l, i as int, k as int) {
                                assert(ids_before(es, i as int, k as int).contains(id));
                            }
                        }
                        if ids_before(es, i as int, k as int).contains(id) {
                            let (j, l) = choose|j: int, l: int| #[trigger] in_parts(es, j, l) && before(j, l, i as int, k as int)
                                && part_id(es, j, l) == id;
                            assert(before(j, l, i as int, k + 1));
                        }
                        if id == row.id {
                            assert(in_parts(es, i as int, k as int) && before(i as int, k as int, i as int, k + 1));
                        }
                    }
                    assert(s.ids() =~= ids_before(es, i as int, k + 1));
                }
                k = k + 1;
            }
            proof {
                assert(es[i as int].rows@.take(k as int) =~= es[i as int].rows@);
                assert(es.take(i + 1).drop_last() =~= es.take(i as int));
                assert(es.take(i + 1).last() == es[i as int]);
                assert forall|id: u32| #[trigger] ids_before(es, i + 1, 0).contains(id)
                    == ids_before(es, i as int, k as int).contains(id) by {
                    if ids_before(es, i + 1, 0).contains(id) {
                        let (j, l) = choose|j: int, l: int| #[trigger] in_parts(es, j, l) && before(j, l, i + 1, 0)
                            && part_id(es, j, l) == id;
                        assert(before(j, l, i as int, k as int));
                    }
                    if ids_before(es, i as int, k as int).contains(id) {
                        let (j, l) = choose|j: int, l: int| #[trigger] in_parts(es, j, l) && before(j, l, i as int, k as int)
                            && part_id(es, j, l) == id;
                        assert(before(j, l, i + 1, 0));
                    }
                }
                assert(s.ids() =~= ids_before(es, i + 1, 0));
            }
            i = i + 1;
        }
        proof {
            assert(es.take(i as int) =~= es);
        }
        Some(s)
    }

    /// The store as parts: one entry per date, latest first.
    pub fn to_parts(&self) -> (r: Vec<DateRows>)
        requires
            self.wf(),
        ensures
            parts_ok(self.max_id, r@),
            parts_map(r@) == self.tasks(),
    {
        let mut out: Vec<DateRows> = Vec::new();
        let mut i: usize = 0;
        while i < self.buckets.len()
            invariant
                self.wf(),
                i <= self.buckets@.len(),
                out@.len() == i,
                forall|j: int| 0 <= j < i ==> (#[trigger] out@[j]).date@ == self.buckets@[j].date@
                    && rows_view(out@[j].rows@) == self.bucket_view(j),
            decreases self.buckets@.len() - i,
        {
            proof { self.lemma_date_pos(i as int); }
            let rows = self.get_rows_for_date(self.buckets[i].date.as_str());
            out.push(DateRows { date: self.buckets[i].date.clone(), rows });
            i = i + 1;
        }
        proof {
            let es = out@;
            assert forall|a: int, b: int| 0 <= a < b < es.len() implies #[trigger] es[a].date@ != #[trigger] es[b].date@ by {
                lemma_lt_irreflexive(es[a].date@);
                assert(crate::order::date_lt(self.buckets@[b].date@, self.buckets@[a].date@));
            }
            assert forall|a: int, b: int| #[trigger] in_parts(es, a, b) implies self.valid_at(a, b)
                && part_id(es, a, b) == self.row_at(a, b).id by {
                assert(rows_view(es[a].rows@).len() == self.bucket_view(a).len());
                assert(rows_view(es[a].rows@)[b] == self.bucket_view(a)[b]);
            }
            assert forall|a: int, b: int, c: int, d: int|
                #![trigger part_id(es, a, b), part_id(es, c, d)]
                in_parts(es, a, b) && in_parts(es, c, d) && part_id(es, a, b) == part_id(es, c, d)
                implies a == c && b == d by {
                assert(self.row_at(a, b).id == self.row_at(c, d).id);
            }
            lemma_parts_map(es);
            assert forall|a: int| 0 <= a < self.buckets@.len() implies parts_map(es).contains_key(#[trigger] self.buckets@[a].date@)
                && parts_map(es)[self.buckets@[a].date@] == self.bucket_view(a) by {
                assert(es[a].rows@.len() > 0) by {
                    assert(rows_view(es[a].rows@).len() == self.bucket_view(a).len());
                }
                assert(es[a].date@ == self.buckets@[a].date@);
            }
            assert forall|d: Seq<char>| parts_map(es).contains_key(d) implies self.has_date(d) by {
                let j = choose|j: int| 0 <= j < es.len() && #[trigger] es[j].date@ == d;
                assert(self.buckets@[j].date@ == d);
            }
            self.lemma_tasks_ext(parts_map(es));
        }
        out
    }

    /// Taking a store apart and rebuilding it from the parts gives back the
    /// same tasks and the same `max_id`.
    pub proof fn lemma_round_trip(s: State, es: Seq<DateRows>, t: State)
        requires
            s.wf(),
            parts_ok(s.max_id, es),
            parts_map(es) == s.tasks(),
            t.max_id == s.max_id,
            t.tasks() == parts_map(es),
        ensures
            t.tasks() == s.tasks(),
            t.max_id == s.max_id,
    {
    }
}

} // verus!
