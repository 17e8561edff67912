//! The report: the kept records in the order of their ranks, one line each.

use vstd::prelude::*;
use vstd::string::StringExecFns;
use crate::rating::RankedResult;
use crate::rating::RankedResultView;
use crate::text::append_decimal;
use crate::text::append_padded;
use crate::text::decimal;
use crate::text::decimal_string;
use crate::text::pad_left;

verus! {

/// The width of the field that holds a line's position, and of the one that
/// holds the size of a change of rank.
pub const NUMBER_WIDTH: usize = 2;

/// Whether the ranks of `results` never fall from one entry to the next.
pub open spec fn is_sorted_by_rank(results: Seq<RankedResultView>) -> bool {
    forall|i: int, j: int|
        0 <= i < j < results.len() ==> results[i].effective_rank <= results[j].effective_rank
}

/// The test for an entry of rank `rank`.
pub open spec fn of_rank(rank: nat) -> spec_fn(RankedResultView) -> bool {
    |entry: RankedResultView| entry.effective_rank == rank
}

/// Whether `sorted` is `results` in the order of the ranks, with entries of
/// one rank in the order that they have in `results`: the ranks of `sorted`
/// never fall, and for every rank the entries of that rank are the same in
/// both, one after the other in the same order. So `sorted` holds what
/// `results` holds, each entry as often.
pub open spec fn is_stable_sort_of(
    sorted: Seq<RankedResultView>,
    results: Seq<RankedResultView>,
) -> bool {
    &&& is_sorted_by_rank(sorted)
    &&& sorted.len() == results.len()
    &&& forall|rank: nat| #[trigger] sorted.filter(of_rank(rank)) == results.filter(of_rank(rank))
}

/// Where no entry of a sequence passes a test, nothing is left of it.
pub proof fn lemma_filter_none<A>(s: Seq<A>, pred: spec_fn(A) -> bool)
    requires
        forall|i: int| 0 <= i < s.len() ==> !pred(#[trigger] s[i]),
    ensures
        s.filter(pred) == Seq::<A>::empty(),
    decreases s.len(),
{
    reveal(Seq::filter);
    if s.len() > 0 {
        lemma_filter_none(s.drop_last(), pred);
    }
}

/// What is left of a sequence with one more entry put in at `at`.
pub proof fn lemma_filter_insert<A>(s: Seq<A>, at: int, entry: A, pred: spec_fn(A) -> bool)
    requires
        0 <= at <= s.len(),
    ensures
        s.insert(at, entry).filter(pred) == s.take(at).filter(pred) + (if pred(entry) {
            seq![entry]
        } else {
            Seq::<A>::empty()
        }) + s.skip(at).filter(pred),
        s.filter(pred) == s.take(at).filter(pred) + s.skip(at).filter(pred),
{
    let one = seq![entry];
    assert(s.insert(at, entry) =~= s.take(at) + one + s.skip(at));
    assert(s =~= s.take(at) + s.skip(at));
    Seq::filter_distributes_over_add(s.take(at) + one, s.skip(at), pred);
    Seq::filter_distributes_over_add(s.take(at), one, pred);
    Seq::filter_distributes_over_add(s.take(at), s.skip(at), pred);
    assert(one.filter(pred) =~= if pred(entry) {
        one
    } else {
        Seq::<A>::empty()
    }) by {
        reveal_with_fuel(Seq::filter, 2);
        assert(one.drop_last() =~= Seq::<A>::empty());
    }
}

/// Putting an entry in front of a sorted sequence, and then moving it behind
/// the entries of lower rank, sorts the longer sequence.
pub proof fn lemma_insert_keeps_stable_sort(
    sorted: Seq<RankedResultView>,
    results: Seq<RankedResultView>,
    entry: RankedResultView,
    at: int,
)
    requires
        is_stable_sort_of(sorted, results),
        0 <= at <= sorted.len(),
        forall|i: int| 0 <= i < at ==> (#[trigger] sorted[i]).effective_rank < entry.effective_rank,
        forall|i: int|
            at <= i < sorted.len() ==> (#[trigger] sorted[i]).effective_rank
                >= entry.effective_rank,
    ensures
        is_stable_sort_of(sorted.insert(at, entry), seq![entry] + results),
{
    let longer = sorted.insert(at, entry);
    let input = seq![entry] + results;
    assert forall|rank: nat| #[trigger]
        longer.filter(of_rank(rank)) == input.filter(of_rank(rank)) by {
        let pred = of_rank(rank);
        lemma_filter_insert(sorted, at, entry, pred);
        Seq::filter_distributes_over_add(seq![entry], results, pred);
        assert(seq![entry].filter(pred) =~= if pred(entry) {
            seq![entry]
        } else {
            Seq::<RankedResultView>::empty()
        }) by {
            reveal_with_fuel(Seq::filter, 2);
            assert(seq![entry].drop_last() =~= Seq::<RankedResultView>::empty());
        }
        assert(sorted.filter(pred) == results.filter(pred));
        if pred(entry) {
            lemma_filter_none(sorted.take(at), pred);
            assert(longer.filter(pred) =~= input.filter(pred));
        } else {
            assert(longer.filter(pred) =~= input.filter(pred));
        }
    }
}

/// Two sequences whose ranks never fall, and which hold for every rank the
/// same entries in the same order, are one sequence.
pub proof fn lemma_sorted_groups_decide(a: Seq<RankedResultView>, b: Seq<RankedResultView>)
    requires
        is_sorted_by_rank(a),
        is_sorted_by_rank(b),
        a.len() == b.len(),
        forall|rank: nat| #[trigger] a.filter(of_rank(rank)) == b.filter(of_rank(rank)),
    ensures
        a == b,
    decreases a.len(),
{
    reveal(Seq::filter);
    if a.len() == 0 {
        assert(a =~= b);
    } else {
        let x = a.last();
        let y = b.last();
        let m = x.effective_rank;
        assert(y.effective_rank == m) by {
            if m < y.effective_rank {
                let pred = of_rank(y.effective_rank);
                b.lemma_filter_contains(pred, b.len() - 1);
                assert(a.filter(pred) == b.filter(pred));
                a.lemma_filter_contains_rev(pred, y);
                let i = choose|i: int| 0 <= i < a.len() && a[i] == y;
                assert(a[i].effective_rank <= a[a.len() - 1].effective_rank);
            } else if y.effective_rank < m {
                let pred = of_rank(m);
                a.lemma_filter_contains(pred, a.len() - 1);
                assert(a.filter(pred) == b.filter(pred));
                b.lemma_filter_contains_rev(pred, x);
                let i = choose|i: int| 0 <= i < b.len() && b[i] == x;
                assert(b[i].effective_rank <= b[b.len() - 1].effective_rank);
            }
        }
        assert(a.filter(of_rank(m)) == b.filter(of_rank(m)));
        assert(a.filter(of_rank(m)) == a.drop_last().filter(of_rank(m)).push(x));
        assert(b.filter(of_rank(m)) == b.drop_last().filter(of_rank(m)).push(y));
        assert(x == y) by {
            assert(a.drop_last().filter(of_rank(m)).push(x).last() == x);
            assert(b.drop_last().filter(of_rank(m)).push(y).last() == y);
        }
        assert forall|rank: nat| #[trigger]
            a.drop_last().filter(of_rank(rank)) == b.drop_last().filter(of_rank(rank)) by {
            assert(a.filter(of_rank(rank)) == b.filter(of_rank(rank)));
            if rank == m {
                let left = a.drop_last().filter(of_rank(rank));
                let right = b.drop_last().filter(of_rank(rank));
                assert(left.push(x).drop_last() =~= left);
                assert(right.push(y).drop_last() =~= right);
            }
        }
        lemma_sorted_groups_decide(a.drop_last(), b.drop_last());
        assert(a =~= a.drop_last().push(x));
        assert(b =~= b.drop_last().push(y));
    }
}

/// Sorting has one result: whatever is `results` in the order of the ranks,
/// with entries of one rank in the order that they have in `results`, is the
/// same sequence.
pub proof fn lemma_stable_sort_is_unique(
    first: Seq<RankedResultView>,
    second: Seq<RankedResultView>,
    results: Seq<RankedResultView>,
)
    requires
        is_stable_sort_of(first, results),
        is_stable_sort_of(second, results),
    ensures
        first == second,
{
    assert forall|rank: nat| #[trigger]
        first.filter(of_rank(rank)) == second.filter(of_rank(rank)) by {
        assert(first.filter(of_rank(rank)) == results.filter(of_rank(rank)));
        assert(second.filter(of_rank(rank)) == results.filter(of_rank(rank)));
    }
    lemma_sorted_groups_decide(first, second);
}

/// An entry stands in a sequence as often as it stands among the entries of
/// its rank.
pub proof fn lemma_count_in_group(s: Seq<RankedResultView>, entry: RankedResultView)
    ensures
        s.to_multiset().count(entry) == s.filter(of_rank(entry.effective_rank)).to_multiset().count(
            entry,
        ),
    decreases s.len(),
{
    reveal(Seq::filter);
    let pred = of_rank(entry.effective_rank);
    if s.len() > 0 {
        let init = s.drop_last();
        let last = s.last();
        lemma_count_in_group(init, entry);
        assert(s =~= init.push(last));
        vstd::seq_lib::to_multiset_build(init, last);
        if pred(last) {
            vstd::seq_lib::to_multiset_build(init.filter(pred), last);
        }
    }
}

/// Sorting neither adds nor drops an entry: the sorted sequence holds every
/// entry as often as the sequence that was sorted.
pub proof fn lemma_stable_sort_permutes(
    sorted: Seq<RankedResultView>,
    results: Seq<RankedResultView>,
)
    requires
        is_stable_sort_of(sorted, results),
    ensures
        sorted.to_multiset() == results.to_multiset(),
{
    assert forall|entry: RankedResultView|
        sorted.to_multiset().count(entry) == results.to_multiset().count(entry) by {
        lemma_count_in_group(sorted, entry);
        lemma_count_in_group(results, entry);
        assert(sorted.filter(of_rank(entry.effective_rank)) == results.filter(
            of_rank(entry.effective_rank),
        ));
    }
    assert(sorted.to_multiset() =~= results.to_multiset());
}

/// Puts `results` in the order of their ranks, the lowest first. Entries of
/// one rank stay in the order in which they stand in `results`.
pub fn sort_by_rank(results: Vec<RankedResult>) -> (sorted: Vec<RankedResult>)
    ensures
        is_stable_sort_of(sorted.deep_view(), results.deep_view()),
        sorted.deep_view().to_multiset() == results.deep_view().to_multiset(),
{
    let ghost input = results.deep_view();
    let mut rest = results;
    let mut sorted: Vec<RankedResult> = Vec::new();
    proof {
        assert(rest.deep_view() =~= input.take(rest.len() as int));
        assert(input.skip(input.len() as int) =~= Seq::<RankedResultView>::empty());
        assert(sorted.deep_view() =~= Seq::<RankedResultView>::empty());
        assert forall|rank: nat| #[trigger]
            sorted.deep_view().filter(of_rank(rank)) == input.skip(input.len() as int).filter(
                of_rank(rank),
            ) by {}
    }
    while rest.len() > 0
        invariant
            rest.len() <= input.len(),
            rest.deep_view() == input.take(rest.len() as int),
            is_stable_sort_of(sorted.deep_view(), input.skip(rest.len() as int)),
        decreases rest.len(),
    {
        let ghost before = sorted.deep_view();
        let ghost left = rest.len() as int;
        let ghost whole = rest.deep_view();
        let entry = rest.pop().unwrap();
        assert(entry@ == whole[left - 1]);
        assert(rest.deep_view() =~= input.take(left - 1));
        let mut at: usize = 0;
        while at < sorted.len() && sorted[at].effective_rank < entry.effective_rank
            invariant
                at <= sorted.len(),
                before == sorted.deep_view(),
                forall|i: int| 0 <= i < at ==> (#[trigger] before[i]).effective_rank < entry@.effective_rank,
            decreases sorted.len() - at,
        {
            at = at + 1;
        }
        proof {
            assert forall|i: int| at <= i < before.len() implies (#[trigger] before[i]).effective_rank
                >= entry@.effective_rank by {
                assert(before[at as int].effective_rank >= entry@.effective_rank);
            }
            lemma_insert_keeps_stable_sort(before, input.skip(left), entry@, at as int);
            assert(seq![entry@] + input.skip(left) =~= input.skip(left - 1));
        }
        sorted.insert(at, entry);
        assert(sorted.deep_view() =~= before.insert(at as int, entry@));
    }
    assert(input.skip(0) =~= input);
    proof {
        lemma_stable_sort_permutes(sorted.deep_view(), input);
    }
    sorted
}

/// The size of a change of rank, whichever way it went.
pub open spec fn magnitude(delta: int) -> nat {
    if delta < 0 {
        (-delta) as nat
    } else {
        delta as nat
    }
}

/// The mark for a change of rank by `delta` places: `^` and the size of the
/// change for a rise, `v` and the size of the change for a fall, the size
/// aligned to the right in a field of two characters; `- ` where the rank has
/// not changed.
pub open spec fn glyph(delta: int) -> Seq<char> {
    if delta > 0 {
        seq!['^'] + pad_left(decimal(magnitude(delta)), NUMBER_WIDTH as nat)
    } else if delta < 0 {
        seq!['v'] + pad_left(decimal(magnitude(delta)), NUMBER_WIDTH as nat)
    } else {
        seq!['-', ' ']
    }
}

/// The line of the entry that stands at `position` in the report: the
/// position, aligned to the right in a field of two characters; four spaces;
/// the mark for the change of rank; a space; the clan's name; a colon and a
/// space; the rank; a line feed.
pub open spec fn report_line(position: nat, entry: RankedResultView) -> Seq<char> {
    pad_left(decimal(position), NUMBER_WIDTH as nat) + seq![' ', ' ', ' ', ' '] + glyph(
        entry.rating.rank_delta,
    ) + seq![' '] + entry.rating.name + seq![':', ' '] + decimal(entry.effective_rank) + seq![
        '\n',
    ]
}

/// The lines of a report on `sorted`, which are numbered from one.
pub open spec fn report_lines(sorted: Seq<RankedResultView>) -> Seq<Seq<char>> {
    Seq::new(sorted.len(), |i: int| report_line((i + 1) as nat, sorted[i]))
}

/// Writes the mark for a change of rank by `delta` places at the end of
/// `out`.
pub fn append_glyph(out: &mut String, delta: i32)
    ensures
        final(out)@ == old(out)@ + glyph(delta as int),
{
    proof {
        reveal_strlit("^");
        reveal_strlit("v");
        reveal_strlit("- ");
    }
    let wide: i64 = delta as i64;
    if delta > 0 {
        let size = decimal_string(wide as u64);
        out.append("^");
        append_padded(out, size.as_str(), NUMBER_WIDTH);
        assert(out@ =~= old(out)@ + glyph(delta as int));
    } else if delta < 0 {
        let size = decimal_string((-wide) as u64);
        out.append("v");
        append_padded(out, size.as_str(), NUMBER_WIDTH);
        assert(out@ =~= old(out)@ + glyph(delta as int));
    } else {
        out.append("- ");
        assert(out@ =~= old(out)@ + glyph(delta as int));
    }
}

/// The mark for a change of rank by `delta` places.
pub fn delta_glyph(delta: i32) -> (mark: String)
    ensures
        mark@ == glyph(delta as int),
{
    let mut mark = String::new();
    append_glyph(&mut mark, delta);
    assert(mark@ =~= glyph(delta as int));
    mark
}

/// The line of `entry` at `position` in the report.
pub fn format_line(position: u64, entry: &RankedResult) -> (line: String)
    ensures
        line@ == report_line(position as nat, entry@),
{
    proof {
        reveal_strlit("    ");
        reveal_strlit(" ");
        reveal_strlit(": ");
        reveal_strlit("\n");
    }
    let number = decimal_string(position);
    let mut line = String::new();
    append_padded(&mut line, number.as_str(), NUMBER_WIDTH);
    line.append("    ");
    append_glyph(&mut line, entry.rating.rank_delta);
    line.append(" ");
    line.append(entry.rating.name.as_str());
    line.append(": ");
    append_decimal(&mut line, entry.effective_rank as u64);
    line.append("\n");
    assert(line@ =~= report_line(position as nat, entry@));
    line
}

/// The lines of a report on `sorted`, in the order of `sorted`.
pub fn render_lines(sorted: &Vec<RankedResult>) -> (lines: Vec<String>)
    ensures
        lines.deep_view() == report_lines(sorted.deep_view()),
{
    let mut lines: Vec<String> = Vec::new();
    let mut i: usize = 0;
    while i < sorted.len()
        invariant
            i <= sorted.len(),
            lines.len() == i,
            forall|j: int| 0 <= j < i ==> (#[trigger] lines[j])@ == report_line((j + 1) as nat, sorted[j]@),
        decreases sorted.len() - i,
    {
        let line = format_line((i + 1) as u64, &sorted[i]);
        lines.push(line);
        i = i + 1;
    }
    assert(lines.deep_view() =~= report_lines(sorted.deep_view()));
    lines
}

/// The report on `results`: one line for each of them, in the order of
/// their ranks, entries of one rank in the order in which they stand in
/// `results`, the lines numbered from one.
pub fn render_report(results: Vec<RankedResult>) -> (lines: Vec<String>)
    ensures
        exists|sorted: Seq<RankedResultView>|
            is_stable_sort_of(sorted, results.deep_view()) && lines.deep_view() == report_lines(
                sorted,
            ),
        lines.len() == results.len(),
{
    let sorted = sort_by_rank(results);
    let lines = render_lines(&sorted);
    assert(lines.deep_view().len() == lines.len());
    lines
}

} // verus!
