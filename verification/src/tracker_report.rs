//! The statistics of a tracker as text.

use vstd::prelude::*;
use vstd::string::*;

use crate::ip::IpAddr;
use crate::ip_format::{ip_text, push_ip};
use crate::ip_tracker::UserIpTracker;
use crate::text::{chars_of, numeral, push_number};
use crate::tracker_model::{row_views, TrackerView};

verus! {

/// Columns that a name takes at least.
pub const NAME_COLUMNS: usize = 20;

/// A name with blanks up to the end of its columns.
pub open spec fn padded(name: Seq<char>) -> Seq<char> {
    if name.len() < NAME_COLUMNS {
        name + Seq::new((NAME_COLUMNS - name.len()) as nat, |i: int| ' ')
    } else {
        name
    }
}

/// The line about a user.
pub open spec fn user_line(row: (Seq<char>, usize, usize)) -> Seq<char> {
    "User: "@ + padded(row.0) + " Active IPs: "@ + numeral(row.1 as nat, 10) + "/"@ + (if row.2
        > 0 {
        numeral(row.2 as nat, 10)
    } else {
        "unlimited"@
    }) + "\n"@
}

/// The lines about addresses.
pub open spec fn ip_lines(ips: Seq<IpAddr>) -> Seq<char>
    decreases ips.len(),
{
    if ips.len() == 0 {
        Seq::empty()
    } else {
        ip_lines(ips.drop_last()) + "  - "@ + ip_text(ips.last()) + "\n"@
    }
}

/// The lines about users, each followed by the lines about its addresses.
pub open spec fn user_lines(
    rows: Seq<(Seq<char>, usize, usize)>,
    lists: Seq<Seq<IpAddr>>,
) -> Seq<char>
    decreases rows.len(),
{
    if rows.len() == 0 {
        Seq::empty()
    } else {
        user_lines(rows.drop_last(), lists) + user_line(rows.last()) + ip_lines(
            lists[rows.len() - 1],
        )
    }
}

/// The whole text.
pub open spec fn report_text(
    rows: Seq<(Seq<char>, usize, usize)>,
    lists: Seq<Seq<IpAddr>>,
) -> Seq<char> {
    if rows.len() == 0 {
        "No active users"@
    } else {
        "User IP Statistics:\n"@ + "==================\n"@ + user_lines(rows, lists)
    }
}

/// Whether `rows` are the statistics after one drain, and each list holds the
/// addresses of its user with an open session, each once. Every list is taken
/// after one more drain.
pub open spec fn report_fits(
    state: TrackerView,
    rows: Seq<(Seq<char>, usize, usize)>,
    lists: Seq<Seq<IpAddr>>,
) -> bool {
    &&& state.drains(1).stats_report(rows)
    &&& lists.len() == rows.len()
    &&& forall|i: int|
        0 <= i < rows.len() ==> (#[trigger] lists[i]).no_duplicates() && lists[i].to_set()
            == state.drains((i + 2) as nat).active_ips(rows[i].0)
}

/// Appends a name and blanks up to the end of its columns.
fn push_padded(out: &mut String, name: &str)
    ensures
        final(out)@ == old(out)@ + padded(name@),
{
    let ghost before = out@;
    let width: usize = chars_of(name).len();
    out.append(name);
    let mut i: usize = width;
    proof {
        reveal_strlit(" ");
    }
    assert(out@ =~= before + name@ + Seq::new((i - width) as nat, |k: int| ' '));
    while i < NAME_COLUMNS
        invariant
            width == name@.len(),
            width <= i,
            i <= NAME_COLUMNS || i == width,
            " "@.len() == 1,
            " "@[0] == ' ',
            out@ == before + name@ + Seq::new((i - width) as nat, |k: int| ' '),
        decreases NAME_COLUMNS - i,
    {
        out.append(" ");
        i += 1;
        assert(out@ =~= before + name@ + Seq::new((i - width) as nat, |k: int| ' '));
    }
    assert(out@ =~= before + padded(name@));
}

fn push_user_line(out: &mut String, name: &str, active_count: usize, limit: usize)
    ensures
        final(out)@ == old(out)@ + user_line((name@, active_count, limit)),
{
    let ghost before = out@;
    out.append("User: ");
    push_padded(out, name);
    out.append(" Active IPs: ");
    push_number(out, active_count as u64, 10);
    out.append("/");
    if limit > 0 {
        push_number(out, limit as u64, 10);
    } else {
        out.append("unlimited");
    }
    out.append("\n");
    assert(out@ =~= before + user_line((name@, active_count, limit)));
}

fn push_ip_lines(out: &mut String, ips: &Vec<IpAddr>)
    ensures
        final(out)@ == old(out)@ + ip_lines(ips@),
{
    let ghost before = out@;
    let mut i: usize = 0;
    assert(ips@.take(0) =~= Seq::empty());
    assert(out@ =~= before + ip_lines(ips@.take(0)));
    while i < ips.len()
        invariant
            i <= ips.len(),
            out@ == before + ip_lines(ips@.take(i as int)),
        decreases ips.len() - i,
    {
        let ghost longer = ips@.take(i + 1);
        assert(longer.drop_last() =~= ips@.take(i as int));
        assert(longer.last() == ips@[i as int]);
        out.append("  - ");
        push_ip(out, ips[i]);
        out.append("\n");
        assert(out@ =~= before + ip_lines(longer));
        i += 1;
    }
    assert(ips@.take(i as int) =~= ips@);
}

proof fn lemma_user_lines_prefix(
    rows: Seq<(Seq<char>, usize, usize)>,
    a: Seq<Seq<IpAddr>>,
    b: Seq<Seq<IpAddr>>,
)
    requires
        rows.len() <= a.len(),
        rows.len() <= b.len(),
        forall|i: int| 0 <= i < rows.len() ==> #[trigger] a[i] == b[i],
    ensures
        user_lines(rows, a) == user_lines(rows, b),
    decreases rows.len(),
{
    if rows.len() > 0 {
        lemma_user_lines_prefix(rows.drop_last(), a, b);
        assert(a[rows.len() - 1] == b[rows.len() - 1]);
    }
}

impl UserIpTracker {
    /// The statistics as text: a line for each listed user, followed by its
    /// addresses with an open session.
    pub fn format_stats(&mut self) -> (res: String)
        requires
            old(self).wf(),
        ensures
            final(self).wf(),
            final(self).readings() == old(self).readings(),
            exists|rows: Seq<(Seq<char>, usize, usize)>, lists: Seq<Seq<IpAddr>>|
                {
                    &&& #[trigger] report_fits(old(self)@, rows, lists)
                    &&& final(self)@ == old(self)@.drains(rows.len() + 1)
                    &&& res@ == report_text(rows, lists)
                },
    {
        let ghost state = self@;
        let stats = self.get_stats();
        let ghost rows = row_views(stats@);
        let ghost mut lists: Seq<Seq<IpAddr>> = Seq::empty();
        proof {
            reveal_with_fuel(TrackerView::drains, 2);
            assert(self@ == state.drains(1));
        }
        if stats.len() == 0 {
            assert(report_fits(state, rows, lists));
            return "No active users".to_owned();
        }
        let mut output = "User IP Statistics:\n".to_owned();
        output.append("==================\n");
        let ghost header = output@;
        let mut i: usize = 0;
        assert(output@ =~= header + user_lines(rows.take(0), lists));
        while i < stats.len()
            invariant
                i <= stats.len(),
                self.wf(),
                self.readings() == old(self).readings(),
                rows == row_views(stats@),
                state.drains(1).stats_report(rows),
                lists.len() == i,
                self@ == state.drains((i + 1) as nat),
                forall|j: int|
                    0 <= j < i ==> (#[trigger] lists[j]).no_duplicates() && lists[j].to_set()
                        == state.drains((j + 2) as nat).active_ips(rows[j].0),
                output@ == header + user_lines(rows.take(i as int), lists),
            decreases stats.len() - i,
        {
            let ghost shorter = lists;
            push_user_line(&mut output, stats[i].0.as_str(), stats[i].1, stats[i].2);
            let ips = self.get_active_ips(stats[i].0.as_str());
            push_ip_lines(&mut output, &ips);
            proof {
                lists = lists.push(ips@);
                let longer = rows.take(i + 1);
                assert(longer.drop_last() =~= rows.take(i as int));
                assert(longer.last() == rows[i as int]);
                lemma_user_lines_prefix(rows.take(i as int), shorter, lists);
                assert(output@ =~= header + user_lines(longer, lists));
                assert(state.drains((i + 2) as nat) == state.drains((i + 1) as nat).drained());
            }
            i += 1;
        }
        assert(rows.take(i as int) =~= rows);
        assert(report_fits(state, rows, lists));
        output
    }
}

} // verus!
