//! The monthly ledger: text in, a structured monthly record out.
//!
//! The first line names the month and the year (`July 2024`). Each later line
//! is blank, an amount, or a category label; an amount is added to the label
//! that last stood above it. Totals are rounded to the cent.
use vstd::prelude::*;
use vstd::string::StrSliceExecFns;
use crate::lexical::{
    amount_bound, amount_value, find_line_end, find_non_space, find_space, integer_value,
    lemma_line_end_bounds, line_end, read_amount, read_integer, skip_spaces, token_end, trim_end, trimmed_end,
};
use crate::text::chars_of;

verus! {

/// The total of one category, in hundredths.
pub struct Expense {
    pub category: String,
    pub hundredths: i128,
}

/// One month of the ledger.
pub struct MonthExpenses {
    pub year: i64,
    pub month: String,
    /// One entry per category, in the order in which the categories first got
    /// an amount.
    pub expenses_data: Vec<Expense>,
}

/// What a ledger says: its year, its month's name, and its totals.
pub struct LedgerView {
    pub year: int,
    pub month: Seq<char>,
    pub totals: Seq<(Seq<char>, int)>,
}

/// Each entry as a category and its total in hundredths.
pub open spec fn expenses_view(v: Seq<Expense>) -> Seq<(Seq<char>, int)> {
    Seq::new(v.len(), |i: int| (v[i].category@, v[i].hundredths as int))
}

impl View for MonthExpenses {
    type V = LedgerView;

    open spec fn view(&self) -> LedgerView {
        LedgerView {
            year: self.year as int,
            month: self.month@,
            totals: expenses_view(self.expenses_data@),
        }
    }
}

/// Trimmed content of the line of `t` that starts at `a`.
pub open spec fn line_content(t: Seq<char>, a: int) -> Seq<char> {
    let e = line_end(t, a);
    let lo = skip_spaces(t, a, e);
    t.subrange(lo, trim_end(t, lo, e))
}

/// The amounts of the lines from the one starting at `a` onwards, each with the
/// category it counts for, given that `cur` is the category in force there.
/// An amount before any category counts for none and is left out.
pub open spec fn events_from(t: Seq<char>, a: int, cur: Option<Seq<char>>) -> Seq<
    (Seq<char>, int),
>
    decreases t.len() + 1 - a
    via events_from_decreases
{
    if a < 0 || a > t.len() {
        Seq::empty()
    } else {
        let l = line_content(t, a);
        let e = line_end(t, a);
        let here: Seq<(Seq<char>, int)> = if l.len() > 0 && cur is Some && amount_value(l) is Some {
            seq![(cur->0, amount_value(l)->0)]
        } else {
            Seq::empty()
        };
        let next_cur = if l.len() > 0 && amount_value(l) is None {
            Some(l)
        } else {
            cur
        };
        if e >= t.len() {
            here
        } else {
            here + events_from(t, e + 1, next_cur)
        }
    }
}

#[via_fn]
proof fn events_from_decreases(t: Seq<char>, a: int, cur: Option<Seq<char>>) {
    lemma_line_end_bounds(t, a);
}

/// The amounts below the first line, each with its category.
pub open spec fn ledger_events(t: Seq<char>) -> Seq<(Seq<char>, int)> {
    let e = line_end(t, 0);
    if e >= t.len() {
        Seq::empty()
    } else {
        events_from(t, e + 1, None)
    }
}

/// Sum of the amounts of `ev` that count for category `c`.
pub open spec fn sum_for(ev: Seq<(Seq<char>, int)>, c: Seq<char>) -> int
    decreases ev.len(),
{
    if ev.len() == 0 {
        0
    } else {
        sum_for(ev.drop_last(), c) + if ev.last().0 == c {
            ev.last().1
        } else {
            0
        }
    }
}

/// The categories of `ev`, each once, in order of first appearance.
pub open spec fn categories_in(ev: Seq<(Seq<char>, int)>) -> Seq<Seq<char>>
    decreases ev.len(),
{
    if ev.len() == 0 {
        Seq::empty()
    } else {
        let d = categories_in(ev.drop_last());
        if d.contains(ev.last().0) {
            d
        } else {
            d.push(ev.last().0)
        }
    }
}

/// `m` millionths rounded to the nearest hundredth, halves away from zero.
pub open spec fn round_cents(m: int) -> int {
    if m >= 0 {
        (m + 5000) / 10000
    } else {
        -((-m + 5000) / 10000)
    }
}

/// Each category of `ev` with its total, rounded to the cent.
pub open spec fn totals_of(ev: Seq<(Seq<char>, int)>) -> Seq<(Seq<char>, int)> {
    let d = categories_in(ev);
    Seq::new(d.len(), |i: int| (d[i], round_cents(sum_for(ev, d[i]))))
}

/// Start and end of the month name and of the year on the first line.
pub open spec fn header_tokens(t: Seq<char>) -> (int, int, int, int) {
    let e = line_end(t, 0);
    let ms = skip_spaces(t, 0, e);
    let me = token_end(t, ms, e);
    let ys = skip_spaces(t, me, e);
    let ye = token_end(t, ys, e);
    (ms, me, ys, ye)
}

/// The record that ledger text `t` describes, if it describes one: the first
/// line holds at least two words, the second of them an integer, and at least
/// one amount below it counts for a category.
pub open spec fn parse_view(t: Seq<char>) -> Option<LedgerView> {
    let (ms, me, ys, ye) = header_tokens(t);
    let ev = ledger_events(t);
    if ys < line_end(t, 0) && integer_value(t.subrange(ys, ye)) is Some && ev.len() > 0 {
        Some(
            LedgerView {
                year: integer_value(t.subrange(ys, ye))->0,
                month: t.subrange(ms, me),
                totals: totals_of(ev),
            },
        )
    } else {
        None
    }
}

proof fn lemma_categories_distinct(ev: Seq<(Seq<char>, int)>)
    ensures
        forall|i: int, j: int|
            0 <= i < j < categories_in(ev).len() ==> categories_in(ev)[i] != categories_in(
                ev,
            )[j],
    decreases ev.len(),
{
    if ev.len() > 0 {
        lemma_categories_distinct(ev.drop_last());
        let d = categories_in(ev.drop_last());
        let c = ev.last().0;
        if !d.contains(c) {
            let e = d.push(c);
            assert forall|i: int, j: int| 0 <= i < j < e.len() implies e[i] != e[j] by {
                if j == d.len() && e[i] == c {
                    assert(d[i] == c);
                }
            }
        }
    }
}

proof fn lemma_sum_for_bound(ev: Seq<(Seq<char>, int)>, c: Seq<char>)
    requires
        forall|i: int| 0 <= i < ev.len() ==> -amount_bound() < #[trigger] ev[i].1 < amount_bound(),
    ensures
        -(ev.len() * amount_bound()) <= sum_for(ev, c) <= ev.len() * amount_bound(),
    decreases ev.len(),
{
    if ev.len() > 0 {
        let d = ev.drop_last();
        assert forall|i: int| 0 <= i < d.len() implies -amount_bound() < #[trigger] d[i].1
            < amount_bound() by {
            assert(d[i] == ev[i]);
        }
        lemma_sum_for_bound(d, c);
        assert(ev.last() == ev[ev.len() - 1]);
        assert((d.len() + 1) * amount_bound() == ev.len() * amount_bound());
    }
}

/// Whether `cs[a..b]` and `cs[c..d]` hold the same characters.
fn same_span(cs: &Vec<char>, a: usize, b: usize, c: usize, d: usize) -> (r: bool)
    requires
        a <= b <= cs@.len(),
        c <= d <= cs@.len(),
    ensures
        r == (cs@.subrange(a as int, b as int) == cs@.subrange(c as int, d as int)),
{
    if b - a != d - c {
        assert(cs@.subrange(a as int, b as int).len() != cs@.subrange(c as int, d as int).len());
        return false;
    }
    let ghost x = cs@.subrange(a as int, b as int);
    let ghost y = cs@.subrange(c as int, d as int);
    let mut i: usize = 0;
    while i < b - a
        invariant
            a <= b <= cs@.len(),
            c <= d <= cs@.len(),
            b - a == d - c,
            i <= b - a,
            x == cs@.subrange(a as int, b as int),
            y == cs@.subrange(c as int, d as int),
            forall|j: int| 0 <= j < i ==> x[j] == y[j],
        decreases b - a - i,
    {
        if cs[a + i] != cs[c + i] {
            assert(x[i as int] != y[i as int]);
            return false;
        }
        i = i + 1;
    }
    assert(x =~= y);
    true
}

/// `m` millionths rounded to the cent (see `round_cents`).
pub fn millionths_to_cents(m: i128) -> (r: i128)
    requires
        -0x7fff_ffff_ffff_ffff_ffff_ffff_0000_0000 <= m <= 0x7fff_ffff_ffff_ffff_ffff_ffff_0000_0000,
    ensures
        r == round_cents(m as int),
{
    if m >= 0 {
        (m + 5000) / 10000
    } else {
        -((-m + 5000) / 10000)
    }
}

/// Running total of one category: the category is `cs[start..end]`.
struct Tally {
    start: usize,
    end: usize,
    micro: i128,
}

spec fn cur_view(t: Seq<char>, cur: Option<(usize, usize)>) -> Option<Seq<char>> {
    match cur {
        Some((a, b)) => Some(t.subrange(a as int, b as int)),
        None => None,
    }
}

spec fn tallies_match(t: Seq<char>, ts: Seq<Tally>, ev: Seq<(Seq<char>, int)>) -> bool {
    &&& ts.len() == categories_in(ev).len()
    &&& forall|i: int|
        0 <= i < ts.len() ==> {
            &&& (#[trigger] ts[i]).start <= ts[i].end <= t.len()
            &&& t.subrange(ts[i].start as int, ts[i].end as int) == categories_in(ev)[i]
            &&& ts[i].micro == sum_for(ev, categories_in(ev)[i])
        }
}

/// Adds amount `v` to the tally of category `cs[a..b]`, opening one if needed.
fn add_amount(
    cs: &Vec<char>,
    tallies: &mut Vec<Tally>,
    a: usize,
    b: usize,
    v: i64,
    Ghost(ev): Ghost<Seq<(Seq<char>, int)>>,
)
    requires
        a <= b <= cs@.len(),
        tallies_match(cs@, old(tallies)@, ev),
        forall|i: int| 0 <= i < ev.len() ==> -amount_bound() < #[trigger] ev[i].1 < amount_bound(),
        -amount_bound() < v < amount_bound(),
        ev.len() < 0x1_0000_0000_0000_0000,
    ensures
        tallies_match(cs@, final(tallies)@, ev.push((cs@.subrange(a as int, b as int), v as int))),
{
    let ghost c = cs@.subrange(a as int, b as int);
    let ghost ev2 = ev.push((c, v as int));
    let ghost d = categories_in(ev);
    assert(ev2.drop_last() =~= ev);
    assert(ev2.last() == (c, v as int));
    assert(categories_in(ev2) == (if d.contains(c) {
        d
    } else {
        d.push(c)
    }));
    assert(forall|x: Seq<char>|
        #[trigger] sum_for(ev2, x) == sum_for(ev, x) + if x == c {
            v as int
        } else {
            0
        });
    proof {
        lemma_categories_distinct(ev);
    }
    let mut j: usize = 0;
    while j < tallies.len()
        invariant
            a <= b <= cs@.len(),
            tallies_match(cs@, tallies@, ev),
            d == categories_in(ev),
            c == cs@.subrange(a as int, b as int),
            j <= tallies@.len(),
            forall|k: int| 0 <= k < j ==> d[k] != c,
            ev2 == ev.push((c, v as int)),
            categories_in(ev2) == (if d.contains(c) {
                d
            } else {
                d.push(c)
            }),
            forall|x: Seq<char>|
                #[trigger] sum_for(ev2, x) == sum_for(ev, x) + if x == c {
                    v as int
                } else {
                    0
                },
            forall|i: int, k: int| 0 <= i < k < d.len() ==> d[i] != d[k],
            forall|i: int| 0 <= i < ev.len() ==> -amount_bound() < #[trigger] ev[i].1 < amount_bound(),
            -amount_bound() < v < amount_bound(),
            ev.len() < 0x1_0000_0000_0000_0000,
        decreases tallies@.len() - j,
    {
        let tj = &tallies[j];
        if same_span(cs, tj.start, tj.end, a, b) {
            assert(d[j as int] == c);
            assert(d.contains(c));
            proof {
                lemma_sum_for_bound(ev, c);
                assert(ev.len() * amount_bound() <= 0xffff_ffff_ffff_ffff * amount_bound()) by (nonlinear_arith)
                    requires ev.len() < 0x1_0000_0000_0000_0000;
            }
            let t2 = Tally { start: tj.start, end: tj.end, micro: tj.micro + v as i128 };
            tallies.set(j, t2);
            assert forall|i: int| 0 <= i < tallies@.len() implies sum_for(ev2, d[i]) == (
            #[trigger] tallies@[i]).micro by {
                if i != j {
                    assert(d[i] != c);
                }
            }
            return ;
        }
        j = j + 1;
    }
    assert(!d.contains(c));
    assert(categories_in(ev2) == d.push(c));
    let ghost before = tallies@;
    tallies.push(Tally { start: a, end: b, micro: v as i128 });
    assert forall|i: int| 0 <= i < tallies@.len() implies sum_for(ev2, d.push(c)[i]) == (
    #[trigger] tallies@[i]).micro by {
        if i < d.len() {
            assert(d.push(c)[i] == d[i]);
            assert(d[i] != c);
            assert(tallies@[i] == before[i]);
        } else {
            assert(sum_for(ev, c) == 0) by {
                lemma_sum_for_absent(ev, c);
            }
        }
    }
}

proof fn lemma_sum_for_absent(ev: Seq<(Seq<char>, int)>, c: Seq<char>)
    requires
        !categories_in(ev).contains(c),
    ensures
        sum_for(ev, c) == 0,
    decreases ev.len(),
{
    if ev.len() > 0 {
        let d = categories_in(ev.drop_last());
        if d.contains(c) {
            let k = choose|k: int| 0 <= k < d.len() && d[k] == c;
            if d.contains(ev.last().0) {
                assert(categories_in(ev)[k] == c);
            } else {
                assert(d.push(ev.last().0)[k] == c);
            }
        }
        if !d.contains(ev.last().0) {
            assert(d.push(ev.last().0)[d.len() as int] == ev.last().0);
        }
        lemma_sum_for_absent(ev.drop_last(), c);
    }
}

/// Totals per category of the lines after the first (which ends at `e0`).
fn tally_lines(cs: &Vec<char>, e0: usize) -> (r: Vec<Tally>)
    requires
        e0 == line_end(cs@, 0),
    ensures
        tallies_match(cs@, r@, ledger_events(cs@)),
        ledger_events(cs@).len() <= cs@.len() + 1,
        forall|i: int|
            0 <= i < ledger_events(cs@).len() ==> -amount_bound() < #[trigger] ledger_events(
                cs@,
            )[i].1 < amount_bound(),
{
    let ghost t = cs@;
    let n = cs.len();
    let mut tallies: Vec<Tally> = Vec::new();
    proof {
        lemma_line_end_bounds(t, 0);
    }
    if e0 >= n {
        return tallies;
    }
    let mut pos: usize = e0 + 1;
    let mut cur: Option<(usize, usize)> = None;
    let mut done = false;
    let ghost mut ev: Seq<(Seq<char>, int)> = Seq::empty();
    assert(ledger_events(t) =~= ev + events_from(t, pos as int, cur_view(t, cur)));
    while !done
        invariant
            t == cs@,
            n == t.len(),
            pos <= n,
            !done ==> ev.len() <= pos,
            done ==> ev.len() <= pos + 1,
            ledger_events(t) == ev + if done {
                Seq::empty()
            } else {
                events_from(t, pos as int, cur_view(t, cur))
            },
            cur matches Some((a, b)) ==> a <= b <= n,
            tallies_match(t, tallies@, ev),
            forall|i: int| 0 <= i < ev.len() ==> -amount_bound() < #[trigger] ev[i].1 < amount_bound(),
        decreases n + 1 - pos, if done { 0int } else { 1int },
    {
        let e = find_line_end(cs, pos);
        let lo = find_non_space(cs, pos, e);
        let hi = trimmed_end(cs, lo, e);
        let ghost l = t.subrange(lo as int, hi as int);
        assert(line_content(t, pos as int) == l);
        let ghost rest = events_from(t, pos as int, cur_view(t, cur));
        let ghost old_ev = ev;
        let ghost old_cur = cur_view(t, cur);
        let ghost sh: Seq<(Seq<char>, int)> = if l.len() > 0 && old_cur is Some && amount_value(
            l,
        ) is Some {
            seq![(old_cur->0, amount_value(l)->0)]
        } else {
            Seq::empty()
        };
        let ghost nc = if l.len() > 0 && amount_value(l) is None {
            Some(l)
        } else {
            old_cur
        };
        assert(rest == if e >= n {
            sh
        } else {
            sh + events_from(t, e + 1, nc)
        });
        if hi > lo {
            match read_amount(cs, lo, hi) {
                Some(v) => {
                    if let Some((a, b)) = cur {
                        add_amount(cs, &mut tallies, a, b, v, Ghost(ev));
                        proof {
                            ev = ev.push((t.subrange(a as int, b as int), v as int));
                        }
                    }
                },
                None => {
                    cur = Some((lo, hi));
                },
            }
        }
        assert(ev =~= old_ev + sh);
        assert(cur_view(t, cur) == nc);
        if e >= n {
            done = true;
        } else {
            pos = e + 1;
        }
        assert(ledger_events(t) =~= ev + if done {
            Seq::empty()
        } else {
            events_from(t, pos as int, cur_view(t, cur))
        });
    }
    tallies
}

/// Reads a monthly record from ledger text.
///
/// `None` means the text holds nothing to merge: its first line lacks a month
/// and an integer year, or no amount below it falls under a category.
pub fn parse_month_expenses(text: &str) -> (r: Option<MonthExpenses>)
    ensures
        match r {
            Some(m) => parse_view(text@) == Some(m@),
            None => parse_view(text@) is None,
        },
{
    let cs = chars_of(text);
    let ghost t = cs@;
    let n = cs.len();
    let e0 = find_line_end(&cs, 0);
    let ms = find_non_space(&cs, 0, e0);
    let me = find_space(&cs, ms, e0);
    let ys = find_non_space(&cs, me, e0);
    let ye = find_space(&cs, ys, e0);
    assert(header_tokens(t) == (ms as int, me as int, ys as int, ye as int));
    if ys >= e0 {
        return None;
    }
    let year = match read_integer(&cs, ys, ye) {
        Some(y) => y,
        None => {
            return None;
        },
    };
    let tallies = tally_lines(&cs, e0);
    let ghost ev = ledger_events(t);
    if tallies.len() == 0 {
        assert(ev.len() == 0) by {
            if ev.len() > 0 {
                assert(categories_in(ev).len() > 0) by {
                    lemma_categories_nonempty(ev);
                }
            }
        }
        return None;
    }
    assert(ev.len() > 0) by {
        if ev.len() == 0 {
            assert(categories_in(ev).len() == 0);
        }
    }
    let month = text.substring_char(ms, me).to_owned();
    let mut expenses_data: Vec<Expense> = Vec::new();
    let mut i: usize = 0;
    let ghost d = categories_in(ev);
    while i < tallies.len()
        invariant
            t == cs@,
            t == text@,
            n == t.len(),
            ev == ledger_events(t),
            d == categories_in(ev),
            ev.len() <= n + 1,
            forall|k: int| 0 <= k < ev.len() ==> -amount_bound() < #[trigger] ev[k].1 < amount_bound(),
            tallies_match(t, tallies@, ev),
            i <= tallies@.len(),
            expenses_data@.len() == i,
            forall|k: int|
                0 <= k < i ==> (#[trigger] expenses_view(expenses_data@)[k]) == totals_of(ev)[k],
        decreases tallies@.len() - i,
    {
        let tl = &tallies[i];
        proof {
            lemma_sum_for_bound(ev, d[i as int]);
            assert(ev.len() * amount_bound() <= 0x1_0000_0000_0000_0000 * amount_bound())
                by (nonlinear_arith)
                requires
                    ev.len() <= 0x1_0000_0000_0000_0000,
            ;
        }
        let category = text.substring_char(tl.start, tl.end).to_owned();
        let hundredths = millionths_to_cents(tl.micro);
        let ghost before = expenses_data@;
        expenses_data.push(Expense { category, hundredths });
        assert forall|k: int| 0 <= k < i + 1 implies (#[trigger] expenses_view(expenses_data@)[k])
            == totals_of(ev)[k] by {
            if k < i {
                assert(expenses_view(expenses_data@)[k] == expenses_view(before)[k]);
            }
        }
        i = i + 1;
    }
    assert(expenses_view(expenses_data@) =~= totals_of(ev));
    Some(MonthExpenses { year, month, expenses_data })
}

proof fn lemma_categories_nonempty(ev: Seq<(Seq<char>, int)>)
    requires
        ev.len() > 0,
    ensures
        categories_in(ev).len() > 0,
    decreases ev.len(),
{
    if ev.len() > 1 {
        lemma_categories_nonempty(ev.drop_last());
    }
}

/// The amounts of `ev` that count for category `c`, in order.
pub open spec fn amounts_for(ev: Seq<(Seq<char>, int)>, c: Seq<char>) -> Seq<int>
    decreases ev.len(),
{
    if ev.len() == 0 {
        Seq::empty()
    } else if ev.last().0 == c {
        amounts_for(ev.drop_last(), c).push(ev.last().1)
    } else {
        amounts_for(ev.drop_last(), c)
    }
}

/// The sum of `s`.
pub open spec fn seq_sum(s: Seq<int>) -> int
    decreases s.len(),
{
    if s.len() == 0 {
        0
    } else {
        seq_sum(s.drop_last()) + s.last()
    }
}

proof fn lemma_sum_for_is_sum(ev: Seq<(Seq<char>, int)>, c: Seq<char>)
    ensures
        sum_for(ev, c) == seq_sum(amounts_for(ev, c)),
        categories_in(ev).contains(c) ==> amounts_for(ev, c).len() > 0,
    decreases ev.len(),
{
    if ev.len() > 0 {
        let d = ev.drop_last();
        lemma_sum_for_is_sum(d, c);
        if ev.last().0 == c {
            assert(amounts_for(ev, c).drop_last() =~= amounts_for(d, c));
        } else if categories_in(ev).contains(c) {
            let k = choose|k: int| 0 <= k < categories_in(ev).len() && categories_in(ev)[k] == c;
            if !categories_in(d).contains(ev.last().0) {
                assert(k < categories_in(d).len());
                assert(categories_in(d)[k] == c);
            }
            assert(categories_in(d).contains(c));
        }
    }
}

/// Every total of a parsed ledger is the sum of the amounts that stand under
/// its category (there is at least one), rounded half away from zero to the
/// cent.
pub proof fn law_total_is_rounded_sum(t: Seq<char>)
    requires
        parse_view(t) is Some,
    ensures
        forall|i: int|
            0 <= i < parse_view(t)->0.totals.len() ==> {
                let (c, total) = #[trigger] parse_view(t)->0.totals[i];
                &&& amounts_for(ledger_events(t), c).len() > 0
                &&& total == round_cents(seq_sum(amounts_for(ledger_events(t), c)))
            },
{
    let ev = ledger_events(t);
    assert forall|i: int| 0 <= i < parse_view(t)->0.totals.len() implies {
        let (c, total) = #[trigger] parse_view(t)->0.totals[i];
        &&& amounts_for(ev, c).len() > 0
        &&& total == round_cents(seq_sum(amounts_for(ev, c)))
    } by {
        let c = categories_in(ev)[i];
        assert(categories_in(ev).contains(c));
        lemma_sum_for_is_sum(ev, c);
    }
}

/// Rounding to the cent is idempotent: a value already in whole cents
/// (`round_cents(m)` hundredths, that is `round_cents(m) * 10000` millionths)
/// rounds to itself.
pub proof fn law_round_cents_idempotent(m: int)
    ensures
        round_cents(round_cents(m) * 10000) == round_cents(m),
{
    let c = round_cents(m);
    if m >= 0 {
        assert(c >= 0) by {
            vstd::arithmetic::div_mod::lemma_div_pos_is_pos(m + 5000, 10000);
        }
        vstd::arithmetic::div_mod::lemma_div_multiples_vanish_fancy(c, 5000, 10000);
        assert(c * 10000 == 10000 * c) by (nonlinear_arith);
    } else {
        let p = (-m + 5000) / 10000;
        assert(p >= 0) by {
            vstd::arithmetic::div_mod::lemma_div_pos_is_pos(-m + 5000, 10000);
        }
        vstd::arithmetic::div_mod::lemma_div_multiples_vanish_fancy(p, 5000, 10000);
        assert(c * 10000 == -(10000 * p)) by (nonlinear_arith)
            requires
                c == -p,
        ;
        if p == 0 {
            assert(c * 10000 == 0);
        }
    }
}

} // verus!
