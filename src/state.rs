use vstd::prelude::*;

use crate::error::ReporterError;
use crate::order::{
    compare_dates, date_lt, lemma_lt_irreflexive, lemma_lt_transitive, lemma_lt_trichotomy,
};

verus! {

/// Where a task stands in its lifecycle. Any status may be set to any other.
#[derive(Clone, Copy, Debug, PartialEq, Eq, Structural)]
pub enum Status {
    Open,
    Working,
    Testing,
    Ready,
}

/// The human-readable label of a status.
pub open spec fn status_label(s: Status) -> Seq<char> {
    match s {
        Status::Open => "Открыто"@,
        Status::Working => "В работе"@,
        Status::Testing => "Передал в тестирование"@,
        Status::Ready => "Готово"@,
    }
}

/// The order in which report sections appear.
pub open spec fn status_order() -> Seq<Status> {
    seq![Status::Open, Status::Working, Status::Testing, Status::Ready]
}

impl Status {
    /// The status's label.
    pub fn to_str(&self) -> (r: &str)
        ensures
            r@ == status_label(*self),
    {
        match self {
            Status::Open => "Открыто",
            Status::Working => "В работе",
            Status::Testing => "Передал в тестирование",
            Status::Ready => "Готово",
        }
    }

    /// The status's label as an owned string.
    pub fn to_string(&self) -> (r: String)
        ensures
            r@ == status_label(*self),
    {
        String::from_str(self.to_str())
    }

    /// Every status, in report order.
    pub fn all() -> (r: [Status; 4])
        ensures
            r@ == status_order(),
    {
        let r = [Status::Open, Status::Working, Status::Testing, Status::Ready];
        assert(r@ =~= status_order());
        r
    }
}

/// One recorded task.
#[derive(Clone, Debug)]
pub struct Row {
    pub id: u32,
    pub text: String,
    pub status: Status,
}

/// The mathematical value of a task.
pub struct RowModel {
    pub id: u32,
    pub text: Seq<char>,
    pub status: Status,
}

impl View for Row {
    type V = RowModel;

    open spec fn view(&self) -> RowModel {
        RowModel { id: self.id, text: self.text@, status: self.status }
    }
}

/// The values of a sequence of tasks.
pub open spec fn rows_view(rows: Seq<Row>) -> Seq<RowModel> {
    rows.map_values(|r: Row| r@)
}

/// Whether some task of `rows` carries `id`.
pub open spec fn has_id(rows: Seq<RowModel>, id: u32) -> bool {
    exists|k: int| 0 <= k < rows.len() && #[trigger] rows[k].id == id
}

/// The position of the task with `id` in `rows` (ids are unique in a store).
pub open spec fn id_pos(rows: Seq<RowModel>, id: u32) -> int {
    choose|k: int| 0 <= k < rows.len() && #[trigger] rows[k].id == id
}

impl Row {
    /// A task with status `Working`.
    pub fn new(id: u32, text: String) -> (r: Row)
        ensures
            r@ == (RowModel { id, text: text@, status: Status::Working }),
    {
        Row { id, text, status: Status::Working }
    }
}

/// A copy of `r` with the same value.
pub(crate) fn copy_row(r: &Row) -> (c: Row)
    ensures
        c@ == r@,
{
    Row { id: r.id, text: r.text.clone(), status: r.status }
}

/// The tasks recorded for one date, in insertion order.
pub struct DateRows {
    pub date: String,
    pub rows: Vec<Row>,
}

/// The task store: tasks grouped by date key, with id allocation.
pub struct State {
    pub max_id: u32,
    pub buckets: Vec<DateRows>,
    pub cur_date: String,
}

/// `m` with the tasks of `date` replaced by `rows`, or the date dropped when
/// `rows` is empty.
pub open spec fn put_rows(
    m: Map<Seq<char>, Seq<RowModel>>,
    date: Seq<char>,
    rows: Seq<RowModel>,
) -> Map<Seq<char>, Seq<RowModel>> {
    if rows.len() == 0 {
        m.remove(date)
    } else {
        m.insert(date, rows)
    }
}

/// The tasks of `date` in `m`, empty when it has none.
pub open spec fn rows_in(m: Map<Seq<char>, Seq<RowModel>>, date: Seq<char>) -> Seq<RowModel> {
    if m.contains_key(date) {
        m[date]
    } else {
        Seq::empty()
    }
}

/// `rows` with the text of the task `id` replaced by `text`.
pub open spec fn with_text(rows: Seq<RowModel>, id: u32, text: Seq<char>) -> Seq<RowModel> {
    let k = id_pos(rows, id);
    rows.update(k, RowModel { id: rows[k].id, text, status: rows[k].status })
}

/// `rows` with the status of the task `id` replaced by `status`.
pub open spec fn with_status(rows: Seq<RowModel>, id: u32, status: Status) -> Seq<RowModel> {
    let k = id_pos(rows, id);
    rows.update(k, RowModel { id: rows[k].id, text: rows[k].text, status })
}

/// `rows` without the task `id`.
pub open spec fn without_id(rows: Seq<RowModel>, id: u32) -> Seq<RowModel> {
    rows.remove(id_pos(rows, id))
}

/// The store's map after the task `id` of `date` moved to `new_date`.
pub open spec fn moved(
    m: Map<Seq<char>, Seq<RowModel>>,
    date: Seq<char>,
    id: u32,
    new_date: Seq<char>,
) -> Map<Seq<char>, Seq<RowModel>> {
    let rows = m[date];
    let mid = put_rows(m, date, without_id(rows, id));
    mid.insert(new_date, rows_in(mid, new_date).push(rows[id_pos(rows, id)]))
}

impl State {
    /// The task at position `k` of the date at position `i`.
    pub open spec fn row_at(&self, i: int, k: int) -> Row {
        self.buckets@[i].rows@[k]
    }

    /// Whether `(i, k)` names a task of the store.
    pub open spec fn valid_at(&self, i: int, k: int) -> bool {
        0 <= i < self.buckets@.len() && 0 <= k < self.buckets@[i].rows@.len()
    }

    /// The store's invariant: date keys strictly descending, no empty date,
    /// ids at most `max_id` and unique over the whole store.
    pub open spec fn wf(&self) -> bool {
        &&& forall|i: int, j: int|
            0 <= i < j < self.buckets@.len() ==> date_lt(
                #[trigger] self.buckets@[j].date@,
                #[trigger] self.buckets@[i].date@,
            )
        &&& forall|i: int| 0 <= i < self.buckets@.len() ==> #[trigger] self.buckets@[i].rows@.len() > 0
        &&& forall|i: int, k: int| #[trigger] self.valid_at(i, k) ==> self.row_at(i, k).id <= self.max_id
        &&& forall|i: int, k: int, j: int, l: int|
            #![trigger self.row_at(i, k), self.row_at(j, l)]
            self.valid_at(i, k) && self.valid_at(j, l) && self.row_at(i, k).id == self.row_at(j, l).id
                ==> i == j && k == l
    }

    /// The tasks of the date at position `i`.
    pub open spec fn bucket_view(&self, i: int) -> Seq<RowModel> {
        rows_view(self.buckets@[i].rows@)
    }

    /// Whether some date entry has key `d`.
    pub open spec fn has_date(&self, d: Seq<char>) -> bool {
        exists|i: int| 0 <= i < self.buckets@.len() && #[trigger] self.buckets@[i].date@ == d
    }

    /// The position of the entry with key `d`.
    pub open spec fn date_pos(&self, d: Seq<char>) -> int {
        choose|i: int| 0 <= i < self.buckets@.len() && #[trigger] self.buckets@[i].date@ == d
    }

    /// The store as a map from date key to that date's tasks.
    pub open spec fn tasks(&self) -> Map<Seq<char>, Seq<RowModel>> {
        Map::new(|d: Seq<char>| self.has_date(d), |d: Seq<char>| self.bucket_view(self.date_pos(d)))
    }

    /// The date keys held, in the order the store keeps them.
    pub open spec fn dates(&self) -> Seq<Seq<char>> {
        self.buckets@.map_values(|b: DateRows| b.date@)
    }

    /// The ids of every task held.
    pub open spec fn ids(&self) -> Set<u32> {
        Set::new(|id: u32| exists|i: int, k: int| #[trigger] self.valid_at(i, k) && self.row_at(i, k).id == id)
    }

    /// The tasks recorded for `date`, empty when there are none.
    pub open spec fn rows_on(&self, date: Seq<char>) -> Seq<RowModel> {
        rows_in(self.tasks(), date)
    }

    /// The entry at position `i` is the one the map reads for its key.
    pub(crate) proof fn lemma_date_pos(&self, i: int)
        requires
            self.wf(),
            0 <= i < self.buckets@.len(),
        ensures
            self.has_date(self.buckets@[i].date@),
            self.date_pos(self.buckets@[i].date@) == i,
            self.tasks().contains_key(self.buckets@[i].date@),
            self.tasks()[self.buckets@[i].date@] == self.bucket_view(i),
    {
        let d = self.buckets@[i].date@;
        assert(self.has_date(d));
        let j = self.date_pos(d);
        if j != i {
            lemma_lt_irreflexive(d);
            if j < i {
                assert(date_lt(self.buckets@[i].date@, self.buckets@[j].date@));
            } else {
                assert(date_lt(self.buckets@[j].date@, self.buckets@[i].date@));
            }
        }
    }

    /// The task at `(i, k)` is the one that `id_pos` picks for its id.
    proof fn lemma_id_pos(&self, i: int, k: int)
        requires
            self.wf(),
            self.valid_at(i, k),
        ensures
            has_id(self.bucket_view(i), self.row_at(i, k).id),
            id_pos(self.bucket_view(i), self.row_at(i, k).id) == k,
    {
        let b = self.bucket_view(i);
        let id = self.row_at(i, k).id;
        assert(b[k].id == id);
        let p = id_pos(b, id);
        assert(self.row_at(i, p).id == id);
        assert(self.valid_at(i, p));
    }

    /// Makes an empty store whose current date is `cur_date`.
    pub fn with_date(cur_date: String) -> (s: State)
        ensures
            s.wf(),
            s.max_id == 0,
            s.cur_date@ == cur_date@,
            s.tasks() == Map::<Seq<char>, Seq<RowModel>>::empty(),
            s.dates() == Seq::<Seq<char>>::empty(),
    {
        let s = State { max_id: 0, buckets: Vec::new(), cur_date };
        assert(s.tasks() =~= Map::<Seq<char>, Seq<RowModel>>::empty());
        assert(s.dates() =~= Seq::<Seq<char>>::empty());
        s
    }

    /// Locates `date`: `(i, true)` when the date is held at position `i`, else
    /// `(i, false)` with `i` the position where it would be inserted.
    fn locate(&self, date: &str) -> (r: (usize, bool))
        requires
            self.wf(),
        ensures
            r.0 <= self.buckets@.len(),
            r.1 ==> r.0 < self.buckets@.len() && self.buckets@[r.0 as int].date@ == date@,
            r.1 == self.has_date(date@),
            !r.1 ==> forall|j: int| 0 <= j < r.0 ==> date_lt(date@, #[trigger] self.buckets@[j].date@),
            !r.1 ==> forall|j: int|
                r.0 <= j < self.buckets@.len() ==> date_lt(#[trigger] self.buckets@[j].date@, date@),
    {
        let mut i: usize = 0;
        while i < self.buckets.len()
            invariant
                self.wf(),
                i <= self.buckets@.len(),
                forall|j: int| 0 <= j < i ==> date_lt(date@, #[trigger] self.buckets@[j].date@),
            decreases self.buckets@.len() - i,
        {
            let c = compare_dates(self.buckets[i].date.as_str(), date);
            if c == 0 {
                return (i, true);
            }
            if c < 0 {
                proof {
                    assert forall|j: int| i <= j < self.buckets@.len() implies date_lt(
                        #[trigger] self.buckets@[j].date@,
                        date@,
                    ) by {
                        if j > i {
                            lemma_lt_transitive(self.buckets@[j].date@, self.buckets@[i as int].date@, date@);
                        }
                    }
                    assert forall|j: int| 0 <= j < self.buckets@.len() implies #[trigger] self.buckets@[j].date@ != date@ by {
                        lemma_lt_irreflexive(date@);
                    }
                }
                return (i, false);
            }
            i = i + 1;
        }
        proof {
            assert forall|j: int| 0 <= j < self.buckets@.len() implies #[trigger] self.buckets@[j].date@ != date@ by {
                lemma_lt_irreflexive(date@);
            }
        }
        (i, false)
    }

    /// The map is `m` when each entry agrees with `m` and `m` has no other key.
    pub(crate) proof fn lemma_tasks_ext(&self, m: Map<Seq<char>, Seq<RowModel>>)
        requires
            forall|i: int|
                0 <= i < self.buckets@.len() ==> m.contains_key(#[trigger] self.buckets@[i].date@)
                    && m[self.buckets@[i].date@] == self.bucket_view(i),
            forall|d: Seq<char>| m.contains_key(d) ==> self.has_date(d),
        ensures
            self.tasks() == m,
    {
        assert forall|d: Seq<char>| self.tasks().contains_key(d) implies m.contains_key(d)
            && self.tasks()[d] == m[d] by {
            let i = self.date_pos(d);
            assert(self.buckets@[i].date@ == d);
        }
        assert(self.tasks() =~= m);
    }

    /// Appends `row` to the tasks of `date`, creating the date if absent.
    pub(crate) fn push_row(&mut self, date: String, row: Row)
        requires
            old(self).wf(),
            row.id <= old(self).max_id,
            forall|i: int, k: int| #[trigger] old(self).valid_at(i, k) ==> old(self).row_at(i, k).id != row.id,
        ensures
            final(self).wf(),
            final(self).max_id == old(self).max_id,
            final(self).cur_date == old(self).cur_date,
            final(self).tasks() == old(self).tasks().insert(date@, old(self).rows_on(date@).push(row@)),
            final(self).ids() == old(self).ids().insert(row.id),
    {
        let ghost o = *self;
        let ghost rm = row@;
        let ghost m = o.tasks().insert(date@, o.rows_on(date@).push(row@));
        let (p, found) = self.locate(date.as_str());
        if found {
            proof { o.lemma_date_pos(p as int); }
            self.buckets[p].rows.push(row);
            proof {
                assert(self.bucket_view(p as int) =~= o.bucket_view(p as int).push(rm));
                assert(self.row_at(p as int, o.buckets@[p as int].rows@.len() as int) == row);
                assert forall|i: int, k: int| #[trigger] o.valid_at(i, k) implies self.valid_at(i, k)
                    && self.row_at(i, k) == o.row_at(i, k) by {
                    if i == p {
                        assert(self.buckets@[i].rows@ == o.buckets@[i].rows@.push(row));
                    }
                }
                assert forall|i: int| 0 <= i < self.buckets@.len() implies #[trigger] self.buckets@[i].date@ == o.buckets@[i].date@
                    && self.buckets@[i].rows@.len() > 0 by {
                    assert(o.buckets@[i].rows@.len() > 0);
                }
                assert forall|i: int, j: int| 0 <= i < j < self.buckets@.len() implies date_lt(
                    #[trigger] self.buckets@[j].date@,
                    #[trigger] self.buckets@[i].date@,
                ) by {
                    assert(date_lt(o.buckets@[j].date@, o.buckets@[i].date@));
                }
                assert forall|i: int, k: int| #[trigger] self.valid_at(i, k) implies self.row_at(i, k).id <= self.max_id by {
                    if !(i == p && k == o.buckets@[p as int].rows@.len()) {
                        assert(o.valid_at(i, k));
                    }
                }
                assert forall|i: int, k: int, j: int, l: int|
                    #![trigger self.row_at(i, k), self.row_at(j, l)]
                    self.valid_at(i, k) && self.valid_at(j, l) && self.row_at(i, k).id == self.row_at(j, l).id
                    implies i == j && k == l by {
                    let n = o.buckets@[p as int].rows@.len();
                    if !(i == p && k == n) { assert(o.valid_at(i, k)); }
                    if !(j == p && l == n) { assert(o.valid_at(j, l)); }
                }
                assert forall|i: int| 0 <= i < self.buckets@.len() implies m.contains_key(#[trigger] self.buckets@[i].date@)
                    && m[self.buckets@[i].date@] == self.bucket_view(i) by {
                    o.lemma_date_pos(i);
                }
                assert forall|d: Seq<char>| m.contains_key(d) implies self.has_date(d) by {
                    if d != date@ {
                        let i = o.date_pos(d);
                        assert(self.buckets@[i].date@ == d);
                    } else {
                        assert(self.buckets@[p as int].date@ == d);
                    }
                }
                assert(self.wf());
                self.lemma_tasks_ext(m);
                assert forall|id: u32| #[trigger] self.ids().contains(id) == o.ids().insert(row.id).contains(id) by {
                    if self.ids().contains(id) {
                        let (i, k) = choose|i: int, k: int| #[trigger] self.valid_at(i, k) && self.row_at(i, k).id == id;
                        if !(i == p && k == o.buckets@[p as int].rows@.len()) {
                            assert(o.valid_at(i, k));
                        }
                    }
                    if o.ids().contains(id) {
                        let (i, k) = choose|i: int, k: int| #[trigger] o.valid_at(i, k) && o.row_at(i, k).id == id;
                        assert(self.valid_at(i, k));
                    }
                    if id == row.id {
                        assert(self.valid_at(p as int, o.buckets@[p as int].rows@.len() as int));
                    }
                }
                assert(self.ids() =~= o.ids().insert(row.id));
            }
        } else {
            let mut rows: Vec<Row> = Vec::new();
            rows.push(row);
            let b = DateRows { date, rows };
            self.buckets.insert(p, b);
            proof {
                assert(self.bucket_view(p as int) =~= seq![rm]);
                assert(o.rows_on(date@) =~= Seq::<RowModel>::empty());
                assert forall|i: int, k: int| #[trigger] self.valid_at(i, k) implies self.row_at(i, k).id <= self.max_id by {
                    if i < p { assert(o.valid_at(i, k)); } else if i > p { assert(o.valid_at(i - 1, k)); }
                }
                assert forall|i: int, k: int, j: int, l: int|
                    #![trigger self.row_at(i, k), self.row_at(j, l)]
                    self.valid_at(i, k) && self.valid_at(j, l) && self.row_at(i, k).id == self.row_at(j, l).id
                    implies i == j && k == l by {
                    if i < p { assert(o.valid_at(i, k)); } else if i > p { assert(o.valid_at(i - 1, k)); }
                    if j < p { assert(o.valid_at(j, l)); } else if j > p { assert(o.valid_at(j - 1, l)); }
                    if i < p && j > p { assert(o.row_at(i, k) == self.row_at(i, k)); assert(o.row_at(j - 1, l) == self.row_at(j, l)); }
                    if i > p && j < p { assert(o.row_at(i - 1, k) == self.row_at(i, k)); assert(o.row_at(j, l) == self.row_at(j, l)); }
                    if i > p && j > p { assert(o.row_at(i - 1, k) == self.row_at(i, k)); assert(o.row_at(j - 1, l) == self.row_at(j, l)); }
                }
                assert forall|i: int, j: int| 0 <= i < j < self.buckets@.len() implies date_lt(
                    #[trigger] self.buckets@[j].date@,
                    #[trigger] self.buckets@[i].date@,
                ) by {
                    if i < p && j > p {
                        assert(date_lt(o.buckets@[j - 1].date@, date@));
                        assert(date_lt(date@, o.buckets@[i].date@));
                        lemma_lt_transitive(o.buckets@[j - 1].date@, date@, o.buckets@[i].date@);
                    } else if i < p && j == p {
                        assert(date_lt(date@, o.buckets@[i].date@));
                    } else if i == p {
                        assert(date_lt(o.buckets@[j - 1].date@, date@));
                    } else if i > p {
                        assert(date_lt(o.buckets@[j - 1].date@, o.buckets@[i - 1].date@));
                    }
                }
                assert forall|i: int| 0 <= i < self.buckets@.len() implies #[trigger] self.buckets@[i].rows@.len() > 0 by {
                    if i < p { assert(o.buckets@[i].rows@.len() > 0); } else if i > p { assert(o.buckets@[i - 1].rows@.len() > 0); }
                }
                assert forall|i: int| 0 <= i < self.buckets@.len() implies m.contains_key(#[trigger] self.buckets@[i].date@)
                    && m[self.buckets@[i].date@] == self.bucket_view(i) by {
                    if i < p {
                        o.lemma_date_pos(i);
                        assert(date_lt(date@, o.buckets@[i].date@));
                        lemma_lt_irreflexive(date@);
                    } else if i > p {
                        o.lemma_date_pos(i - 1);
                        assert(date_lt(o.buckets@[i - 1].date@, date@));
                        lemma_lt_irreflexive(date@);
                    }
                }
                assert forall|d: Seq<char>| m.contains_key(d) implies self.has_date(d) by {
                    if d != date@ {
                        let i = o.date_pos(d);
                        if i < p {
                            assert(self.buckets@[i].date@ == d);
                        } else {
                            assert(self.buckets@[i + 1].date@ == d);
                        }
                    } else {
                        assert(self.buckets@[p as int].date@ == d);
                    }
                }
                assert(self.wf());
                self.lemma_tasks_ext(m);
                assert forall|id: u32| #[trigger] self.ids().contains(id) == o.ids().insert(row.id).contains(id) by {
                    if self.ids().contains(id) {
                        let (i, k) = choose|i: int, k: int| #[trigger] self.valid_at(i, k) && self.row_at(i, k).id == id;
                        if i < p {
                            assert(o.valid_at(i, k));
                        } else if i > p {
                            assert(o.valid_at(i - 1, k));
                        }
                    }
                    if o.ids().contains(id) {
                        let (i, k) = choose|i: int, k: int| #[trigger] o.valid_at(i, k) && o.row_at(i, k).id == id;
                        if i < p {
                            assert(self.valid_at(i, k));
                        } else {
                            assert(self.valid_at(i + 1, k));
                        }
                    }
                    if id == row.id {
                        assert(self.valid_at(p as int, 0));
                    }
                }
                assert(self.ids() =~= o.ids().insert(row.id));
            }
        }
    }

    /// Removes the task at position `k` of date `p`, dropping the date when
    /// it becomes empty.
    fn take_row(&mut self, p: usize, k: usize) -> (r: Row)
        requires
            old(self).wf(),
            old(self).valid_at(p as int, k as int),
        ensures
            r == old(self).row_at(p as int, k as int),
            final(self).wf(),
            final(self).max_id == old(self).max_id,
            final(self).cur_date == old(self).cur_date,
            final(self).tasks() == put_rows(
                old(self).tasks(),
                old(self).buckets@[p as int].date@,
                old(self).bucket_view(p as int).remove(k as int),
            ),
            forall|i: int, l: int| #[trigger] final(self).valid_at(i, l) ==> final(self).row_at(i, l).id != r.id,
    {
        let ghost o = *self;
        let ghost d = o.buckets@[p as int].date@;
        let ghost nb = o.bucket_view(p as int).remove(k as int);
        let ghost m = put_rows(o.tasks(), d, nb);
        proof { o.lemma_date_pos(p as int); }
        let r = self.buckets[p].rows.remove(k);
        let ghost mid = *self;
        proof {
            assert(mid.bucket_view(p as int) =~= nb);
            assert forall|i: int, l: int| #[trigger] mid.valid_at(i, l) implies
                (if i == p && l >= k { o.valid_at(i, l + 1) && mid.row_at(i, l) == o.row_at(i, l + 1) }
                 else { o.valid_at(i, l) && mid.row_at(i, l) == o.row_at(i, l) }) by {
                if i == p {
                    assert(mid.buckets@[i].rows@ == o.buckets@[i].rows@.remove(k as int));
                }
            }
            assert forall|i: int| 0 <= i < mid.buckets@.len() implies #[trigger] mid.buckets@[i].date@ == o.buckets@[i].date@
                && (i != p ==> mid.buckets@[i].rows@ == o.buckets@[i].rows@) by {
            }
        }
        if self.buckets[p].rows.len() == 0 {
            let _ = self.buckets.remove(p);
            proof {
                assert forall|i: int, l: int| #[trigger] self.valid_at(i, l) implies
                    (if i < p { o.valid_at(i, l) && self.row_at(i, l) == o.row_at(i, l) }
                     else { o.valid_at(i + 1, l) && self.row_at(i, l) == o.row_at(i + 1, l) }) by {
                }
                assert forall|i: int, l: int| #[trigger] self.valid_at(i, l) implies self.row_at(i, l).id <= self.max_id
                    && self.row_at(i, l).id != r.id by {
                    if i < p {
                        assert(o.valid_at(i, l));
                    } else {
                        assert(o.valid_at(i + 1, l));
                    }
                }
                assert forall|i: int, l: int, j: int, q: int|
                    #![trigger self.row_at(i, l), self.row_at(j, q)]
                    self.valid_at(i, l) && self.valid_at(j, q) && self.row_at(i, l).id == self.row_at(j, q).id
                    implies i == j && l == q by {
                    let ii = if i < p { i } else { i + 1 };
                    let jj = if j < p { j } else { j + 1 };
                    assert(o.valid_at(ii, l) && self.row_at(i, l) == o.row_at(ii, l));
                    assert(o.valid_at(jj, q) && self.row_at(j, q) == o.row_at(jj, q));
                }
                assert forall|i: int, j: int| 0 <= i < j < self.buckets@.len() implies date_lt(
                    #[trigger] self.buckets@[j].date@,
                    #[trigger] self.buckets@[i].date@,
                ) by {
                    let ii = if i < p { i } else { i + 1 };
                    let jj = if j < p { j } else { j + 1 };
                    assert(self.buckets@[i] == mid.buckets@[ii]);
                    assert(self.buckets@[j] == mid.buckets@[jj]);
                    assert(date_lt(o.buckets@[jj].date@, o.buckets@[ii].date@));
                }
                assert forall|i: int| 0 <= i < self.buckets@.len() implies #[trigger] self.buckets@[i].rows@.len() > 0 by {
                    let ii = if i < p { i } else { i + 1 };
                    assert(self.buckets@[i] == mid.buckets@[ii]);
                    assert(o.buckets@[ii].rows@.len() > 0);
                }
                assert(self.wf());
                assert forall|i: int| 0 <= i < self.buckets@.len() implies m.contains_key(#[trigger] self.buckets@[i].date@)
                    && m[self.buckets@[i].date@] == self.bucket_view(i) by {
                    let ii = if i < p { i } else { i + 1 };
                    assert(self.buckets@[i] == mid.buckets@[ii]);
                    o.lemma_date_pos(ii);
                    assert(self.bucket_view(i) =~= o.bucket_view(ii));
                }
                assert forall|e: Seq<char>| m.contains_key(e) implies self.has_date(e) by {
                    let i = o.date_pos(e);
                    if i < p {
                        assert(self.buckets@[i].date@ == e);
                    } else {
                        assert(self.buckets@[i - 1] == mid.buckets@[i]);
                        assert(self.buckets@[i - 1].date@ == e);
                    }
                }
                self.lemma_tasks_ext(m);
            }
        } else {
            proof {
                assert forall|i: int, l: int| #[trigger] self.valid_at(i, l) implies self.row_at(i, l).id <= self.max_id
                    && self.row_at(i, l).id != r.id by {
                    if i == p && l >= k {
                        assert(o.valid_at(i, l + 1));
                    } else {
                        assert(o.valid_at(i, l));
                    }
                }
                assert forall|i: int, l: int, j: int, q: int|
                    #![trigger self.row_at(i, l), self.row_at(j, q)]
                    self.valid_at(i, l) && self.valid_at(j, q) && self.row_at(i, l).id == self.row_at(j, q).id
                    implies i == j && l == q by {
                    let ll = if i == p && l >= k { l + 1 } else { l };
                    let qq = if j == p && q >= k { q + 1 } else { q };
                    assert(o.valid_at(i, ll) && self.row_at(i, l) == o.row_at(i, ll));
                    assert(o.valid_at(j, qq) && self.row_at(j, q) == o.row_at(j, qq));
                }
                assert forall|i: int, j: int| 0 <= i < j < self.buckets@.len() implies date_lt(
                    #[trigger] self.buckets@[j].date@,
                    #[trigger] self.buckets@[i].date@,
                ) by {
                    assert(date_lt(o.buckets@[j].date@, o.buckets@[i].date@));
                }
                assert forall|i: int| 0 <= i < self.buckets@.len() implies #[trigger] self.buckets@[i].rows@.len() > 0 by {
                    assert(o.buckets@[i].rows@.len() > 0);
                }
                assert(self.wf());
                assert forall|i: int| 0 <= i < self.buckets@.len() implies m.contains_key(#[trigger] self.buckets@[i].date@)
                    && m[self.buckets@[i].date@] == self.bucket_view(i) by {
                    o.lemma_date_pos(i);
                }
                assert forall|e: Seq<char>| m.contains_key(e) implies self.has_date(e) by {
                    let i = o.date_pos(e);
                    assert(self.buckets@[i].date@ == e);
                }
                self.lemma_tasks_ext(m);
            }
        }
        r
    }

    /// Records a new task with the next id under the current date.
    pub fn add_row(&mut self, text: String) -> (r: Result<u32, ReporterError>)
        requires
            old(self).wf(),
            old(self).max_id < u32::MAX,
        ensures
            final(self).wf(),
            r matches Ok(id) && id == old(self).max_id + 1,
            final(self).max_id == old(self).max_id + 1,
            final(self).cur_date == old(self).cur_date,
            final(self).tasks() == old(self).tasks().insert(
                old(self).cur_date@,
                old(self).rows_on(old(self).cur_date@).push(
                    RowModel { id: final(self).max_id, text: text@, status: Status::Working },
                ),
            ),
    {
        let id = self.max_id + 1;
        let date = self.cur_date.clone();
        let ghost o = *self;
        self.max_id = id;
        let row = Row::new(id, text);
        proof {
            assert forall|i: int, k: int| #[trigger] self.valid_at(i, k) implies self.row_at(i, k).id < id by {
                assert(o.valid_at(i, k));
            }
            assert forall|i: int, k: int, j: int, l: int|
                #![trigger self.row_at(i, k), self.row_at(j, l)]
                self.valid_at(i, k) && self.valid_at(j, l) && self.row_at(i, k).id == self.row_at(j, l).id
                implies i == j && k == l by {
                assert(o.valid_at(i, k) && o.valid_at(j, l));
                assert(o.row_at(i, k).id == o.row_at(j, l).id);
            }
            assert(self.tasks() =~= o.tasks());
        }
        self.push_row(date, row);
        Ok(id)
    }

    /// Locates the task `id` of date `key`: `DateNotFound` when the date has
    /// no tasks, `RowNotFound` when none of them has that id.
    fn locate_row(&self, key: &str, id: u32) -> (r: Result<(usize, usize), ReporterError>)
        requires
            self.wf(),
        ensures
            !self.tasks().contains_key(key@) ==> r matches Err(ReporterError::DateNotFound),
            self.tasks().contains_key(key@) && !has_id(self.tasks()[key@], id) ==> r matches Err(
                ReporterError::RowNotFound,
            ),
            self.tasks().contains_key(key@) && has_id(self.tasks()[key@], id) ==> (r matches Ok(pk) && self.valid_at(pk.0 as int, pk.1 as int)
                && self.buckets@[pk.0 as int].date@ == key@
                && self.tasks()[key@] == self.bucket_view(pk.0 as int)
                && id_pos(self.tasks()[key@], id) == pk.1
                && self.row_at(pk.0 as int, pk.1 as int).id == id),
    {
        let (p, found) = self.locate(key);
        if !found {
            return Err(ReporterError::DateNotFound);
        }
        proof { self.lemma_date_pos(p as int); }
        match find_row(&self.buckets[p].rows, id) {
            None => {
                proof {
                    let b = self.tasks()[key@];
                    assert forall|k: int| 0 <= k < b.len() implies #[trigger] b[k].id != id by {
                        assert(self.buckets@[p as int].rows@[k].id != id);
                    }
                }
                Err(ReporterError::RowNotFound)
            },
            Some(k) => {
                proof { self.lemma_id_pos(p as int, k as int); }
                Ok((p, k))
            },
        }
    }

    /// Replaces the text of task `id` of date `key`.
    pub fn edit_row(&mut self, key: String, id: u32, text: String) -> (r: Result<(), ReporterError>)
        requires
            old(self).wf(),
        ensures
            final(self).wf(),
            !old(self).tasks().contains_key(key@) ==> (r matches Err(ReporterError::DateNotFound))
                && *final(self) == *old(self),
            old(self).tasks().contains_key(key@) && !has_id(old(self).tasks()[key@], id) ==> (r matches Err(
                ReporterError::RowNotFound,
            )) && *final(self) == *old(self),
            old(self).tasks().contains_key(key@) && has_id(old(self).tasks()[key@], id) ==> r is Ok
                && final(self).max_id == old(self).max_id
                && final(self).cur_date == old(self).cur_date
                && final(self).tasks() == old(self).tasks().insert(
                key@,
                with_text(old(self).tasks()[key@], id, text@),
            ),
    {
        let (p, k) = match self.locate_row(key.as_str(), id) {
            Ok(pk) => pk,
            Err(e) => return Err(e),
        };
        let ghost o = *self;
        let ghost m = o.tasks().insert(key@, with_text(o.tasks()[key@], id, text@));
        self.buckets[p].rows[k].text = text;
        proof {
            assert(self.bucket_view(p as int) =~= with_text(o.tasks()[key@], id, text@));
            self.lemma_row_replaced(o, p as int, k as int, m);
        }
        Ok(())
    }

    /// Replaces the status of task `id` of date `key`.
    pub fn update_row_status(&mut self, key: String, id: u32, status: Status) -> (r: Result<(), ReporterError>)
        requires
            old(self).wf(),
        ensures
            final(self).wf(),
            !old(self).tasks().contains_key(key@) ==> (r matches Err(ReporterError::DateNotFound))
                && *final(self) == *old(self),
            old(self).tasks().contains_key(key@) && !has_id(old(self).tasks()[key@], id) ==> (r matches Err(
                ReporterError::RowNotFound,
            )) && *final(self) == *old(self),
            old(self).tasks().contains_key(key@) && has_id(old(self).tasks()[key@], id) ==> r is Ok
                && final(self).max_id == old(self).max_id
                && final(self).cur_date == old(self).cur_date
                && final(self).tasks() == old(self).tasks().insert(
                key@,
                with_status(old(self).tasks()[key@], id, status),
            ),
    {
        let (p, k) = match self.locate_row(key.as_str(), id) {
            Ok(pk) => pk,
            Err(e) => return Err(e),
        };
        let ghost o = *self;
        let ghost m = o.tasks().insert(key@, with_status(o.tasks()[key@], id, status));
        self.buckets[p].rows[k].status = status;
        proof {
            assert(self.bucket_view(p as int) =~= with_status(o.tasks()[key@], id, status));
            self.lemma_row_replaced(o, p as int, k as int, m);
        }
        Ok(())
    }

    /// After one task changed in place (id kept), the invariant holds and the
    /// map is `m`, provided `m` records exactly that change.
    proof fn lemma_row_replaced(&self, o: State, p: int, k: int, m: Map<Seq<char>, Seq<RowModel>>)
        requires
            o.wf(),
            o.valid_at(p, k),
            self.max_id == o.max_id,
            self.buckets@.len() == o.buckets@.len(),
            forall|i: int| 0 <= i < o.buckets@.len() && i != p ==> #[trigger] self.buckets@[i] == o.buckets@[i],
            self.buckets@[p].date@ == o.buckets@[p].date@,
            self.buckets@[p].rows@ == o.buckets@[p].rows@.update(k, self.row_at(p, k)),
            self.row_at(p, k).id == o.row_at(p, k).id,
            m == o.tasks().insert(o.buckets@[p].date@, self.bucket_view(p)),
        ensures
            self.wf(),
            self.tasks() == m,
    {
        assert forall|i: int, l: int| #[trigger] self.valid_at(i, l) implies o.valid_at(i, l)
            && self.row_at(i, l).id == o.row_at(i, l).id by {
            if i == p {
                if l != k {
                    assert(self.row_at(i, l) == o.row_at(i, l));
                }
            } else {
                assert(self.buckets@[i] == o.buckets@[i]);
            }
        }
        assert forall|i: int, j: int| 0 <= i < j < self.buckets@.len() implies date_lt(
            #[trigger] self.buckets@[j].date@,
            #[trigger] self.buckets@[i].date@,
        ) by {
            assert(date_lt(o.buckets@[j].date@, o.buckets@[i].date@));
            if i != p { assert(self.buckets@[i] == o.buckets@[i]); }
            if j != p { assert(self.buckets@[j] == o.buckets@[j]); }
        }
        assert forall|i: int| 0 <= i < self.buckets@.len() implies #[trigger] self.buckets@[i].rows@.len() > 0 by {
            assert(o.buckets@[i].rows@.len() > 0);
            if i != p { assert(self.buckets@[i] == o.buckets@[i]); }
        }
        assert forall|i: int, l: int, j: int, q: int|
            #![trigger self.row_at(i, l), self.row_at(j, q)]
            self.valid_at(i, l) && self.valid_at(j, q) && self.row_at(i, l).id == self.row_at(j, q).id
            implies i == j && l == q by {
            assert(o.valid_at(i, l) && o.valid_at(j, q));
            assert(o.row_at(i, l).id == o.row_at(j, q).id);
        }
        assert forall|i: int| 0 <= i < self.buckets@.len() implies m.contains_key(#[trigger] self.buckets@[i].date@)
            && m[self.buckets@[i].date@] == self.bucket_view(i) by {
            o.lemma_date_pos(i);
            o.lemma_date_pos(p);
            if i != p { assert(self.buckets@[i] == o.buckets@[i]); }
        }
        assert forall|e: Seq<char>| m.contains_key(e) implies self.has_date(e) by {
            if e == o.buckets@[p].date@ {
                assert(self.buckets@[p].date@ == e);
            } else {
                let i = o.date_pos(e);
                if i != p { assert(self.buckets@[i] == o.buckets@[i]); }
                assert(self.buckets@[i].date@ == e);
            }
        }
        self.lemma_tasks_ext(m);
    }

    /// Removes task `id` from date `key`, dropping the date when it empties.
    pub fn delete_row(&mut self, key: String, id: u32) -> (r: Result<(), ReporterError>)
        requires
            old(self).wf(),
        ensures
            final(self).wf(),
            !old(self).tasks().contains_key(key@) ==> (r matches Err(ReporterError::DateNotFound))
                && *final(self) == *old(self),
            old(self).tasks().contains_key(key@) && !has_id(old(self).tasks()[key@], id) ==> (r matches Err(
                ReporterError::RowNotFound,
            )) && *final(self) == *old(self),
            old(self).tasks().contains_key(key@) && has_id(old(self).tasks()[key@], id) ==> r is Ok
                && final(self).max_id == old(self).max_id
                && final(self).cur_date == old(self).cur_date
                && final(self).tasks() == put_rows(
                old(self).tasks(),
                key@,
                without_id(old(self).tasks()[key@], id),
            ),
    {
        let (p, k) = match self.locate_row(key.as_str(), id) {
            Ok(pk) => pk,
            Err(e) => return Err(e),
        };
        let _ = self.take_row(p, k);
        Ok(())
    }

    /// Moves task `id` from date `key` to the end of date `new_key`.
    pub fn move_row(&mut self, key: String, id: u32, new_key: String) -> (r: Result<(), ReporterError>)
        requires
            old(self).wf(),
        ensures
            final(self).wf(),
            !old(self).tasks().contains_key(key@) ==> (r matches Err(ReporterError::DateNotFound))
                && *final(self) == *old(self),
            old(self).tasks().contains_key(key@) && !has_id(old(self).tasks()[key@], id) ==> (r matches Err(
                ReporterError::RowNotFound,
            )) && *final(self) == *old(self),
            old(self).tasks().contains_key(key@) && has_id(old(self).tasks()[key@], id) ==> r is Ok
                && final(self).max_id == old(self).max_id
                && final(self).cur_date == old(self).cur_date
                && final(self).tasks() == moved(old(self).tasks(), key@, id, new_key@),
    {
        let (p, k) = match self.locate_row(key.as_str(), id) {
            Ok(pk) => pk,
            Err(e) => return Err(e),
        };
        let row = self.take_row(p, k);
        self.push_row(new_key, row);
        Ok(())
    }

    /// A copy of the tasks recorded for `date`; empty when it has none.
    pub fn get_rows_for_date(&self, date: &str) -> (r: Vec<Row>)
        requires
            self.wf(),
        ensures
            rows_view(r@) == self.rows_on(date@),
    {
        let (p, found) = self.locate(date);
        let mut out: Vec<Row> = Vec::new();
        if !found {
            assert(rows_view(out@) =~= self.rows_on(date@));
            return out;
        }
        proof { self.lemma_date_pos(p as int); }
        let rows = &self.buckets[p].rows;
        let mut k: usize = 0;
        while k < rows.len()
            invariant
                k <= rows@.len(),
                rows_view(out@) == rows_view(rows@.take(k as int)),
            decreases rows@.len() - k,
        {
            let ghost prev = out@;
            out.push(copy_row(&rows[k]));
            proof {
                assert(rows_view(out@) =~= rows_view(prev).push(rows@[k as int]@));
                assert(rows@.take(k + 1) =~= rows@.take(k as int).push(rows@[k as int]));
                assert(rows_view(out@) =~= rows_view(rows@.take(k + 1)));
            }
            k = k + 1;
        }
        assert(rows@.take(k as int) =~= rows@);
        out
    }

    /// Every date key held, latest first.
    pub fn get_all_dates(&self) -> (r: Vec<String>)
        requires
            self.wf(),
        ensures
            r@.map_values(|s: String| s@) == self.dates(),
            forall|i: int, j: int| 0 <= i < j < r@.len() ==> date_lt(#[trigger] r@[j]@, #[trigger] r@[i]@),
            forall|d: Seq<char>| self.tasks().contains_key(d) <==> exists|i: int| 0 <= i < r@.len() && #[trigger] r@[i]@ == d,
    {
        let mut out: Vec<String> = Vec::new();
        let mut i: usize = 0;
        while i < self.buckets.len()
            invariant
                i <= self.buckets@.len(),
                out@.len() == i,
                forall|j: int| 0 <= j < i ==> #[trigger] out@[j]@ == self.buckets@[j].date@,
            decreases self.buckets@.len() - i,
        {
            out.push(self.buckets[i].date.clone());
            i = i + 1;
        }
        proof {
            assert(out@.map_values(|s: String| s@) =~= self.dates());
            assert forall|i: int, j: int| 0 <= i < j < out@.len() implies date_lt(#[trigger] out@[j]@, #[trigger] out@[i]@) by {
                assert(date_lt(self.buckets@[j].date@, self.buckets@[i].date@));
            }
            assert forall|d: Seq<char>| self.tasks().contains_key(d) <==> exists|i: int| 0 <= i < out@.len() && #[trigger] out@[i]@ == d by {
                if self.tasks().contains_key(d) {
                    let i = self.date_pos(d);
                    assert(out@[i]@ == d);
                }
                if exists|i: int| 0 <= i < out@.len() && #[trigger] out@[i]@ == d {
                    let i = choose|i: int| 0 <= i < out@.len() && #[trigger] out@[i]@ == d;
                    assert(self.buckets@[i].date@ == d);
                }
            }
        }
        out
    }

    /// A copy of task `id` of `date`, if the store holds it.
    pub fn get_row(&self, date: &str, id: u32) -> (r: Option<Row>)
        requires
            self.wf(),
        ensures
            r is Some <==> self.tasks().contains_key(date@) && has_id(self.tasks()[date@], id),
            r matches Some(row) ==> row@ == self.tasks()[date@][id_pos(self.tasks()[date@], id)],
    {
        match self.locate_row(date, id) {
            Ok((p, k)) => Some(copy_row(&self.buckets[p].rows[k])),
            Err(_) => None,
        }
    }

    /// An empty store whose current date is today's local date.
    pub fn new() -> (s: State)
        ensures
            s.wf(),
            s.max_id == 0,
            s.tasks() == Map::<Seq<char>, Seq<RowModel>>::empty(),
    {
        State::with_date(today())
    }

    /// Two tasks of one date with the same id are the same task.
    proof fn lemma_ids_unique_on(&self, d: Seq<char>, a: int, b: int)
        requires
            self.wf(),
            self.tasks().contains_key(d),
            0 <= a < self.tasks()[d].len(),
            0 <= b < self.tasks()[d].len(),
            self.tasks()[d][a].id == self.tasks()[d][b].id,
        ensures
            a == b,
    {
        let i = self.date_pos(d);
        assert(self.row_at(i, a).id == self.tasks()[d][a].id);
        assert(self.row_at(i, b).id == self.tasks()[d][b].id);
        assert(self.valid_at(i, a) && self.valid_at(i, b));
    }

    /// Within one date of a well-formed store, ids are unique, so the task
    /// with a given id is the one at any position that carries it.
    pub proof fn lemma_id_pos_unique(&self, d: Seq<char>, k: int)
        requires
            self.wf(),
            self.tasks().contains_key(d),
            0 <= k < self.tasks()[d].len(),
        ensures
            has_id(self.tasks()[d], self.tasks()[d][k].id),
            id_pos(self.tasks()[d], self.tasks()[d][k].id) == k,
    {
        let rows = self.tasks()[d];
        let id = rows[k].id;
        assert(rows[k].id == id);
        let p = id_pos(rows, id);
        self.lemma_ids_unique_on(d, p, k);
    }

    /// The date keys held are exactly the keys of the map, latest first.
    pub proof fn lemma_dates(&self)
        requires
            self.wf(),
        ensures
            forall|i: int, j: int| 0 <= i < j < self.dates().len() ==> date_lt(#[trigger] self.dates()[j], #[trigger] self.dates()[i]),
            forall|d: Seq<char>| self.tasks().contains_key(d) <==> self.dates().contains(d),
    {
        assert forall|d: Seq<char>| self.tasks().contains_key(d) <==> self.dates().contains(d) by {
            if self.tasks().contains_key(d) {
                let i = self.date_pos(d);
                assert(self.dates()[i] == d);
            }
            if self.dates().contains(d) {
                let i = choose|i: int| 0 <= i < self.dates().len() && self.dates()[i] == d;
                assert(self.buckets@[i].date@ == d);
            }
        }
    }

    /// Deleting the only task of a date removes that date from the store's
    /// list of dates.
    pub proof fn lemma_delete_last_drops_date(before: State, after: State, date: Seq<char>, id: u32)
        requires
            before.wf(),
            after.wf(),
            before.tasks().contains_key(date),
            has_id(before.tasks()[date], id),
            before.tasks()[date].len() == 1,
            after.tasks() == put_rows(before.tasks(), date, without_id(before.tasks()[date], id)),
        ensures
            !after.tasks().contains_key(date),
            !after.dates().contains(date),
    {
        after.lemma_dates();
    }

    /// After a task moves to another date it is no longer found under the
    /// old date, and is found, unchanged, under the new one.
    pub proof fn lemma_move_relocates(before: State, after: State, date: Seq<char>, id: u32, new_date: Seq<char>)
        requires
            before.wf(),
            after.wf(),
            date != new_date,
            before.tasks().contains_key(date),
            has_id(before.tasks()[date], id),
            after.tasks() == moved(before.tasks(), date, id, new_date),
        ensures
            !(after.tasks().contains_key(date) && has_id(after.tasks()[date], id)),
            after.tasks().contains_key(new_date),
            has_id(after.tasks()[new_date], id),
            after.tasks()[new_date][id_pos(after.tasks()[new_date], id)]
                == before.tasks()[date][id_pos(before.tasks()[date], id)],
    {
        let rows = before.tasks()[date];
        let p = id_pos(rows, id);
        let rest = without_id(rows, id);
        if after.tasks().contains_key(date) && has_id(after.tasks()[date], id) {
            let q = choose|q: int| 0 <= q < after.tasks()[date].len() && #[trigger] after.tasks()[date][q].id == id;
            assert(after.tasks()[date] == rest);
            let q2 = if q < p { q } else { q + 1 };
            assert(rest[q] == rows[q2]);
            before.lemma_ids_unique_on(date, p, q2);
        }
        let n = after.tasks()[new_date].len() - 1;
        assert(after.tasks()[new_date][n] == rows[p]);
        after.lemma_id_pos_unique(new_date, n);
    }
}

/// Relies on chrono's `Local::now` and its `%Y-%m-%d` formatting: today's
/// local date as a date key. It depends on the clock, so nothing is promised.
#[verifier::external_body]
fn today() -> String {
    chrono::Local::now().format("%Y-%m-%d").to_string()
}

/// Finds the position of the task with `id` in `rows`.
fn find_row(rows: &Vec<Row>, id: u32) -> (r: Option<usize>)
    ensures
        r matches Some(k) ==> k < rows@.len() && rows@[k as int].id == id,
        r is None ==> forall|k: int| 0 <= k < rows@.len() ==> #[trigger] rows@[k].id != id,
{
    let mut k: usize = 0;
    while k < rows.len()
        invariant
            k <= rows@.len(),
            forall|j: int| 0 <= j < k ==> #[trigger] rows@[j].id != id,
        decreases rows@.len() - k,
    {
        if rows[k].id == id {
            return Some(k);
        }
        k = k + 1;
    }
    None
}

} // verus!
