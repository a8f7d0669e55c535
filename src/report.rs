use vstd::prelude::*;

use crate::state::{rows_view, status_label, status_order, Row, RowModel, State, Status};

verus! {

/// The bullet lines of the tasks of `rows` whose status is `s`, in order.
pub open spec fn bullet_lines(rows: Seq<RowModel>, s: Status) -> Seq<char>
    decreases rows.len(),
{
    if rows.len() == 0 {
        Seq::empty()
    } else {
        bullet_lines(rows.drop_last(), s) + if rows.last().status == s {
            "• "@ + rows.last().text + "\n"@
        } else {
            Seq::empty()
        }
    }
}

/// The section for status `s`: a header, its tasks and a blank line, or
/// nothing when no task has that status.
pub open spec fn section(rows: Seq<RowModel>, s: Status) -> Seq<char> {
    let lines = bullet_lines(rows, s);
    if lines.len() == 0 {
        Seq::empty()
    } else {
        "=== "@ + status_label(s) + " ===\n"@ + lines + "\n"@
    }
}

/// The sections for the statuses of `order`, in that order.
pub open spec fn sections(rows: Seq<RowModel>, order: Seq<Status>) -> Seq<char>
    decreases order.len(),
{
    if order.len() == 0 {
        Seq::empty()
    } else {
        sections(rows, order.drop_last()) + section(rows, order.last())
    }
}

/// The report for `date` whose tasks are `rows`.
pub open spec fn report_text(date: Seq<char>, rows: Seq<RowModel>) -> Seq<char> {
    if rows.len() == 0 {
        "Отчет "@ + date + "\n\nНет задач за эту дату."@
    } else {
        "Отчет "@ + date + "\n\n"@ + sections(rows, status_order())
    }
}

/// Appends to `out` the section for status `s` of `rows`.
fn push_section(out: &mut String, rows: &Vec<Row>, s: Status)
    ensures
        final(out)@ == old(out)@ + section(rows_view(rows@), s),
{
    let mut lines = String::new();
    let mut k: usize = 0;
    while k < rows.len()
        invariant
            k <= rows@.len(),
            lines@ == bullet_lines(rows_view(rows@.take(k as int)), s),
        decreases rows@.len() - k,
    {
        proof {
            assert(rows_view(rows@.take(k + 1)).drop_last() =~= rows_view(rows@.take(k as int)));
        }
        if rows[k].status == s {
            lines.append("• ");
            lines.append(rows[k].text.as_str());
            lines.append("\n");
        }
        proof {
            assert(lines@ =~= bullet_lines(rows_view(rows@.take(k + 1)), s));
        }
        k = k + 1;
    }
    proof {
        assert(rows@.take(k as int) =~= rows@);
    }
    if lines.unicode_len() > 0 {
        out.append("=== ");
        out.append(s.to_str());
        out.append(" ===\n");
        out.append(lines.as_str());
        out.append("\n");
        proof {
            assert(final(out)@ =~= old(out)@ + section(rows_view(rows@), s));
        }
    } else {
        proof {
            assert(old(out)@ =~= old(out)@ + section(rows_view(rows@), s));
        }
    }
}

impl State {
    /// The plain-text report of the tasks of `date`, grouped by status.
    pub fn generate_report(&self, date: &str) -> (r: String)
        requires
            self.wf(),
        ensures
            r@ == report_text(date@, self.rows_on(date@)),
    {
        let rows = self.get_rows_for_date(date);
        let mut report = String::from_str("Отчет ");
        report.append(date);
        if rows.len() == 0 {
            report.append("\n\nНет задач за эту дату.");
            proof {
                assert(report@ =~= report_text(date@, self.rows_on(date@)));
            }
            return report;
        }
        report.append("\n\n");
        let ghost head = report@;
        let order = Status::all();
        let mut i: usize = 0;
        while i < 4
            invariant
                i <= 4,
                order@ == status_order(),
                report@ == head + sections(rows_view(rows@), status_order().take(i as int)),
            decreases 4 - i,
        {
            proof {
                assert(status_order().take(i + 1).drop_last() =~= status_order().take(i as int));
            }
            push_section(&mut report, &rows, order[i]);
            proof {
                assert(report@ =~= head + sections(rows_view(rows@), status_order().take(i + 1)));
            }
            i = i + 1;
        }
        proof {
            assert(status_order().take(4) =~= status_order());
            assert(report@ =~= report_text(date@, self.rows_on(date@)));
        }
        report
    }
}

} // verus!
