use vstd::prelude::*;
use vstd::string::StringExecFns;

use crate::parser::push_string_char;
use crate::sql::dec_digits;
use crate::sql::Date;
use crate::sql::digit_char;
use crate::sql::usize_to_string;
use crate::sql::Stamp;

verus! {

/// The response format a client may ask for.
#[derive(Debug, PartialEq, Eq, Clone, Copy)]
pub enum QueryOutput {
    PlainText,
    Json,
}

/// Pick the response format from its query-string name.
pub fn query_output_from_string(s: &str) -> (r: Option<QueryOutput>)
    ensures
        s@ == "json"@ ==> r == Some(QueryOutput::Json),
        s@ == "plaintext"@ ==> r == Some(QueryOutput::PlainText),
        s@ != "json"@ && s@ != "plaintext"@ ==> r is None,
{
    proof {
        reveal_strlit("json");
        reveal_strlit("plaintext");
        assert("json"@.len() != "plaintext"@.len());
    }
    if crate::expr::str_eq(s, "json") {
        Some(QueryOutput::Json)
    } else if crate::expr::str_eq(s, "plaintext") {
        Some(QueryOutput::PlainText)
    } else {
        None
    }
}

/// A stored message as the search returns it.
#[derive(Debug)]
pub struct Message {
    pub id: i32,
    pub time: Stamp,
    pub author: String,
    pub body: String,
    pub offset: i32,
}

/// Ghost mirror of `Message`.
pub struct SpecMessage {
    pub id: int,
    pub time: Stamp,
    pub author: Seq<char>,
    pub body: Seq<char>,
    pub offset: int,
}

impl View for Message {
    type V = SpecMessage;

    open spec fn view(&self) -> SpecMessage {
        SpecMessage {
            id: self.id as int,
            time: self.time,
            author: self.author@,
            body: self.body@,
            offset: self.offset as int,
        }
    }
}

pub open spec fn msgs_of(s: Seq<Message>) -> Seq<SpecMessage>
    decreases s,
{
    if s.len() == 0 {
        Seq::empty()
    } else {
        msgs_of(s.drop_last()).push(s.last()@)
    }
}

/// What the aggregate count statement returns: total rows, distinct raw
/// authors, and distinct canonical authors.
#[derive(Debug, Clone, PartialEq, Eq)]
pub struct CountResult {
    pub total_messages: i64,
    pub total_users: i64,
    pub total_users_raw: i64,
}

/// What the top-authors statement returns: the most frequent canonical
/// authors with their message counts, beside the count figures.
#[derive(Debug, Clone, PartialEq, Eq)]
pub struct TopResult {
    pub top: Vec<(String, i64)>,
    pub total_messages: i64,
    pub total_users: i64,
    pub total_users_raw: i64,
}

/// A number padded to two digits.
pub open spec fn two_digits(n: int) -> Seq<char> {
    if 0 <= n < 10 {
        seq!['0', digit_char(n as nat)]
    } else if n >= 0 {
        dec_digits(n as nat)
    } else {
        dec_digits(0)
    }
}

fn two_digits_exec(n: u8) -> (r: String)
    ensures
        r@ == two_digits(n as int),
{
    if n < 10 {
        let mut out = String::new();
        push_string_char(&mut out, '0');
        let d = usize_to_string(n as usize);
        out.append(d.as_str());
        proof {
            assert(out@ =~= seq!['0', digit_char(n as nat)]);
        }
        out
    } else {
        usize_to_string(n as usize)
    }
}

/// One plain-text line: `[HH:MM:SS] <author> body` and a newline.
pub open spec fn spec_plain_line(m: SpecMessage) -> Seq<char> {
    seq!['['] + two_digits(m.time.time.hour as int) + seq![':'] + two_digits(
        m.time.time.minute as int,
    ) + seq![':'] + two_digits(m.time.time.second as int) + seq![']', ' ', '<'] + m.author
        + seq!['>', ' '] + m.body + seq!['\n']
}

pub open spec fn spec_plain_text(ms: Seq<SpecMessage>) -> Seq<char>
    decreases ms,
{
    if ms.len() == 0 {
        Seq::empty()
    } else {
        spec_plain_text(ms.drop_last()) + spec_plain_line(ms.last())
    }
}

/// Render messages in the plain-text response format, one line each.
#[verifier::loop_isolation(false)]
pub fn render_plaintext(msgs: &Vec<Message>) -> (r: String)
    ensures
        r@ == spec_plain_text(msgs_of(msgs@)),
{
    let ghost ms = msgs_of(msgs@);
    proof {
        lemma_msgs_of(msgs@);
    }
    let mut out = String::new();
    let mut i: usize = 0;
    while i < msgs.len()
        invariant
            0 <= i <= msgs@.len(),
            out@ == spec_plain_text(ms.take(i as int)),
        decreases msgs@.len() - i,
    {
        proof {
            lemma_msgs_of(msgs@);
            assert(msgs_of(msgs@)[i as int] == msgs@[i as int]@);
            assert(ms.take(i + 1 as int).drop_last() =~= ms.take(i as int));
            assert(ms.take(i + 1 as int).last() == ms[i as int]);
        }
        let ghost out_prev = out@;
        let m = &msgs[i];
        push_string_char(&mut out, '[');
        let h = two_digits_exec(m.time.time.hour);
        out.append(h.as_str());
        push_string_char(&mut out, ':');
        let mi = two_digits_exec(m.time.time.minute);
        out.append(mi.as_str());
        push_string_char(&mut out, ':');
        let se = two_digits_exec(m.time.time.second);
        out.append(se.as_str());
        push_string_char(&mut out, ']');
        push_string_char(&mut out, ' ');
        push_string_char(&mut out, '<');
        out.append(m.author.as_str());
        push_string_char(&mut out, '>');
        push_string_char(&mut out, ' ');
        out.append(m.body.as_str());
        push_string_char(&mut out, '\n');
        proof {
            assert(out@ =~= out_prev + spec_plain_line(ms[i as int]));
        }
        i += 1;
    }
    proof {
        assert(ms.take(msgs@.len() as int) =~= ms);
    }
    out
}

/// Strict calendar order on plain dates.
pub open spec fn spec_date_lt(a: Date, b: Date) -> bool {
    if a.year != b.year {
        a.year < b.year
    } else if a.month != b.month {
        a.month < b.month
    } else {
        a.day < b.day
    }
}

fn date_lt(a: Date, b: Date) -> (r: bool)
    ensures
        r == spec_date_lt(a, b),
{
    if a.year != b.year {
        a.year < b.year
    } else if a.month != b.month {
        a.month < b.month
    } else {
        a.day < b.day
    }
}

/// The messages of one day, in input order.
pub open spec fn msgs_on_day(s: Seq<SpecMessage>, d: Date) -> Seq<SpecMessage>
    decreases s,
{
    if s.len() == 0 {
        Seq::empty()
    } else {
        let r = msgs_on_day(s.drop_last(), d);
        if s.last().time.date == d {
            r.push(s.last())
        } else {
            r
        }
    }
}

proof fn lemma_msgs_on_day_absent(s: Seq<SpecMessage>, d: Date)
    requires
        forall|k: int| 0 <= k < s.len() ==> (#[trigger] s[k]).time.date != d,
    ensures
        msgs_on_day(s, d) == Seq::<SpecMessage>::empty(),
    decreases s,
{
    if s.len() > 0 {
        assert(forall|k: int| 0 <= k < s.len() - 1 ==> s.drop_last()[k] == s[k]);
        lemma_msgs_on_day_absent(s.drop_last(), d);
    }
}

/// One day's worth of search results.
#[derive(Debug)]
pub struct DayMessages {
    pub date: Date,
    pub messages: Vec<Message>,
}

/// Every message of `src` has a group carrying its date.
pub open spec fn day_groups_cover(groups: Seq<DayMessages>, src: Seq<SpecMessage>) -> bool {
    forall|k: int|
        0 <= k < src.len() ==> exists|j: int|
            0 <= j < groups.len() && (#[trigger] groups[j]).date == (#[trigger] src[k]).time.date
}

/// Group messages by their UTC date, newest date first.  Each group holds
/// exactly the input's messages of that date, in input order; the groups'
/// dates are strictly descending; every message lands in some group.
#[verifier::loop_isolation(false)]
#[verifier::rlimit(60)]
pub fn group_by_date(msgs: Vec<Message>) -> (r: Vec<DayMessages>)
    ensures
        forall|j: int|
            0 <= j < r@.len() ==> msgs_of(#[trigger] r@[j].messages@) == msgs_on_day(
                msgs_of(msgs@),
                r@[j].date,
            ),
        forall|j1: int, j2: int|
            0 <= j1 < j2 < r@.len() ==> spec_date_lt(r@[j2].date, r@[j1].date),
        day_groups_cover(r@, msgs_of(msgs@)),
{
    let ghost all = msgs_of(msgs@);
    proof {
        lemma_msgs_of(msgs@);
    }
    let mut rest = msgs;
    let mut out: Vec<DayMessages> = Vec::new();
    let ghost mut i: int = 0;
    while rest.len() > 0
        invariant
            0 <= i,
            i + rest@.len() == msgs@.len(),
            rest@ == msgs@.skip(i),
            forall|j: int|
                0 <= j < out@.len() ==> msgs_of(#[trigger] out@[j].messages@) == msgs_on_day(
                    all.take(i),
                    out@[j].date,
                ),
            forall|j1: int, j2: int|
                0 <= j1 < j2 < out@.len() ==> spec_date_lt(out@[j2].date, out@[j1].date),
            day_groups_cover(out@, all.take(i)),
        decreases rest@.len(),
    {
        let ghost out_prev = out@;
        let m = rest.remove(0);
        proof {
            assert(msgs@.skip(i)[0] == msgs@[i]);
            assert(m == msgs@[i]);
            assert(msgs@.skip(i).drop_first() =~= msgs@.skip(i + 1));
            assert(all.take(i + 1).drop_last() =~= all.take(i));
            assert(all.take(i + 1).last() == all[i]);
            assert(all[i] == msgs@[i]@);
        }
        let d = m.time.date;
        let mut j: usize = 0;
        let mut found = false;
        while j < out.len() && !found
            invariant
                0 <= j <= out@.len(),
                found ==> j < out@.len() && out@[j as int].date == d,
                forall|k: int| 0 <= k < j ==> (#[trigger] out@[k]).date != d,
            decreases out@.len() - j + (if found {
                0int
            } else {
                1int
            }),
        {
            if out[j].date == d {
                found = true;
            } else {
                j += 1;
            }
        }
        if found {
            let mut g = out.remove(j);
            let ghost g_msgs = g.messages@;
            g.messages.push(m);
            proof {
                lemma_msgs_of(g.messages@);
                lemma_msgs_of(g_msgs);
                assert(g.messages@.drop_last() =~= g_msgs);
                assert(msgs_of(g.messages@) =~= msgs_of(g_msgs).push(m@));
            }
            out.insert(j, g);
            proof {
                (out_prev).remove_ensures(j as int);
                assert(forall|k: int|
                    0 <= k < out@.len() && k != j ==> out@[k] == out_prev[k]);
                assert(out@.len() == out_prev.len());
                assert(out@[j as int].date == out_prev[j as int].date);
                assert(forall|k: int|
                    0 <= k < out@.len() ==> (#[trigger] out@[k]).date == out_prev[k].date);
                assert forall|j1: int, j2: int|
                    0 <= j1 < j2 < out@.len() implies spec_date_lt(
                    out@[j2].date,
                    out@[j1].date,
                ) by {
                    assert(spec_date_lt(out_prev[j2].date, out_prev[j1].date));
                }
                assert(day_groups_cover(out@, all.take(i + 1))) by {
                    assert forall|k: int| 0 <= k < all.take(i + 1).len() implies exists|jx: int|
                        0 <= jx < out@.len() && (#[trigger] out@[jx]).date == (#[trigger] all.take(i + 1)[k]).time.date by {
                        assert(all.take(i + 1)[k] == all[k]);
                        if k == i {
                            assert(out@[j as int].date == all[i].time.date);
                        } else {
                            assert(all.take(i)[k] == all[k]);
                            let jj = choose|jj: int|
                                0 <= jj < out_prev.len() && (#[trigger] out_prev[jj]).date
                                    == all.take(i)[k].time.date;
                            assert(out@[jj].date == all.take(i + 1)[k].time.date);
                        }
                    }
                }
                assert forall|jj: int| 0 <= jj < out@.len() implies msgs_of(
                    #[trigger] out@[jj].messages@,
                ) == msgs_on_day(all.take(i + 1), out@[jj].date) by {
                    if jj == j {
                        assert(out@[jj].date == d);
                    } else {
                        assert(out@[jj].date != d) by {
                            if jj > j {
                                assert(out_prev[jj] == out@[jj]);
                                let ji = j as int;
                                assert(spec_date_lt(out_prev[jj].date, out_prev[ji].date));
                                assert(out_prev[ji].date == d);
                            }
                        }
                    }
                }
            }
        } else {
            // `d` is a new date: no group holds it, so its day so far is empty
            proof {
                assert forall|k: int| 0 <= k < i implies (#[trigger] all.take(i)[k]).time.date
                    != d by {
                    if all.take(i)[k].time.date == d {
                        let jj = choose|jj: int|
                            0 <= jj < out@.len() && (#[trigger] out@[jj]).date == all.take(
                                i,
                            )[k].time.date;
                        assert(out@[jj].date != d);
                    }
                }
                lemma_msgs_on_day_absent(all.take(i), d);
            }
            let mut p: usize = 0;
            while p < out.len() && !date_lt(out[p].date, d)
                invariant
                    0 <= p <= out@.len(),
                    forall|k: int| 0 <= k < p ==> spec_date_lt(d, (#[trigger] out@[k]).date),
                decreases out@.len() - p,
            {
                proof {
                    assert(out@[p as int].date != d);
                }
                p += 1;
            }
            let mut fresh: Vec<Message> = Vec::new();
            fresh.push(m);
            let g = DayMessages { date: d, messages: fresh };
            proof {
                lemma_msgs_of(g.messages@);
                assert(msgs_of(g.messages@) =~= Seq::<SpecMessage>::empty().push(m@));
            }
            out.insert(p, g);
            proof {
                assert(forall|k: int| 0 <= k < p ==> out@[k] == out_prev[k]);
                assert(forall|k: int|
                    p < k < out@.len() ==> out@[k] == out_prev[k - 1]);
                assert(out@[p as int].date == d);
                assert forall|jj: int| 0 <= jj < out@.len() implies msgs_of(
                    #[trigger] out@[jj].messages@,
                ) == msgs_on_day(all.take(i + 1), out@[jj].date) by {
                    if jj != p {
                        assert(out@[jj].date != d);
                    }
                }
                let pi = p as int;
                assert forall|j1: int, j2: int|
                    0 <= j1 < j2 < out@.len() implies spec_date_lt(
                    out@[j2].date,
                    out@[j1].date,
                ) by {
                    if j2 < pi {
                        assert(spec_date_lt(out_prev[j2].date, out_prev[j1].date));
                    } else if j1 < pi && j2 == pi {
                        assert(spec_date_lt(d, out_prev[j1].date));
                    } else if j1 < pi && j2 > pi {
                        assert(spec_date_lt(out_prev[j2 - 1].date, out_prev[j1].date));
                    } else if j1 == pi {
                        assert(spec_date_lt(out_prev[pi].date, d));
                        if j2 - 1 > pi {
                            assert(spec_date_lt(out_prev[j2 - 1].date, out_prev[pi].date));
                        }
                    } else {
                        assert(spec_date_lt(out_prev[j2 - 1].date, out_prev[j1 - 1].date));
                    }
                }
                assert(day_groups_cover(out@, all.take(i + 1))) by {
                    assert forall|k: int| 0 <= k < all.take(i + 1).len() implies exists|jx: int|
                        0 <= jx < out@.len() && (#[trigger] out@[jx]).date == (#[trigger] all.take(i + 1)[k]).time.date by {
                        assert(all.take(i + 1)[k] == all[k]);
                        if k == i {
                            assert(out@[pi].date == all[i].time.date);
                        } else {
                            assert(all.take(i)[k] == all[k]);
                            let jj = choose|jj: int|
                                0 <= jj < out_prev.len() && (#[trigger] out_prev[jj]).date
                                    == all.take(i)[k].time.date;
                            if jj < pi {
                                assert(out@[jj].date == all.take(i + 1)[k].time.date);
                            } else {
                                assert(out@[jj + 1].date == all.take(i + 1)[k].time.date);
                            }
                        }
                    }
                }
            }
        }
        proof {
            i = i + 1;
        }
    }
    proof {
        assert(all.take(i) =~= all);
        assert(day_groups_cover(out@, msgs_of(msgs@)));
    }
    out
}

pub broadcast proof fn lemma_msgs_of(s: Seq<Message>)
    ensures
        (#[trigger] msgs_of(s)).len() == s.len(),
        forall|i: int| 0 <= i < s.len() ==> msgs_of(s)[i] == s[i]@,
    decreases s,
{
    if s.len() > 0 {
        lemma_msgs_of(s.drop_last());
    }
}

} // verus!
