//! The roster: the tags of the clans that a report is about, one per line of
//! a text.
//!
//! Every line is trimmed of white space at both ends, and a line that is
//! blank after that is no entry. Entries are kept in the order of their
//! lines, and a tag that stands on two lines is kept twice. Only a line feed
//! ends a line, and only the ends of a line are trimmed: white space inside a
//! line, a carriage return too, stays in the tag.

use vstd::prelude::*;
use vstd::std_specs::iter::IteratorSpec;
use vstd::string::StringExecFns;
use vstd::string::StrSliceExecFns;
use crate::error::ReportError;

verus! {

/// Whether `c` is white space: a character that Unicode classes as
/// `White_Space`.
pub open spec fn is_whitespace(c: char) -> bool {
    let u = c as u32;
    ||| 0x09 <= u <= 0x0D
    ||| u == 0x20
    ||| u == 0x85
    ||| u == 0xA0
    ||| u == 0x1680
    ||| 0x2000 <= u <= 0x200A
    ||| u == 0x2028
    ||| u == 0x2029
    ||| u == 0x202F
    ||| u == 0x205F
    ||| u == 0x3000
}

/// `s` without the white space at its start.
pub open spec fn trim_start(s: Seq<char>) -> Seq<char>
    decreases s.len(),
{
    if s.len() > 0 && is_whitespace(s[0]) {
        trim_start(s.drop_first())
    } else {
        s
    }
}

/// `s` without the white space at its end.
pub open spec fn trim_end(s: Seq<char>) -> Seq<char>
    decreases s.len(),
{
    if s.len() > 0 && is_whitespace(s.last()) {
        trim_end(s.drop_last())
    } else {
        s
    }
}

/// `s` without the white space at either end.
pub open spec fn trim(s: Seq<char>) -> Seq<char> {
    trim_end(trim_start(s))
}

/// The number of characters of `s` before its first line feed, all of them
/// where it has none.
pub open spec fn first_line_len(s: Seq<char>) -> nat
    decreases s.len(),
{
    if s.len() == 0 || s[0] == '\n' {
        0
    } else {
        1 + first_line_len(s.drop_first())
    }
}

/// The lines of `s`: the pieces between its line feeds. A text of `k` line
/// feeds has `k + 1` lines, the last of them empty where the text ends in a
/// line feed.
pub open spec fn lines(s: Seq<char>) -> Seq<Seq<char>>
    decreases s.len(),
{
    let n = first_line_len(s) as int;
    if n >= s.len() {
        seq![s]
    } else {
        seq![s.take(n)] + lines(s.skip(n + 1))
    }
}

/// The function that trims a line.
pub open spec fn trimmed() -> spec_fn(Seq<char>) -> Seq<char> {
    |line: Seq<char>| trim(line)
}

/// The test for a piece of text that has a character.
pub open spec fn nonempty() -> spec_fn(Seq<char>) -> bool {
    |piece: Seq<char>| piece.len() > 0
}

/// The test for a line that holds more than white space.
pub open spec fn nonblank() -> spec_fn(Seq<char>) -> bool {
    |line: Seq<char>| trim(line).len() > 0
}

/// The roster that a text holds: its lines, each trimmed, without those that
/// are empty then.
pub open spec fn roster_tags(text: Seq<char>) -> Seq<Seq<char>> {
    lines(text).map_values(trimmed()).filter(nonempty())
}

/// What one line adds to a roster: its trimmed text, or nothing where the
/// line is blank.
pub open spec fn line_entry(line: Seq<char>) -> Seq<Seq<char>> {
    if trim(line).len() > 0 {
        seq![trim(line)]
    } else {
        Seq::empty()
    }
}

/// The first line of a text is no longer than the text.
pub proof fn lemma_first_line_len_bound(s: Seq<char>)
    ensures
        first_line_len(s) <= s.len(),
    decreases s.len(),
{
    if s.len() > 0 && s[0] != '\n' {
        lemma_first_line_len_bound(s.drop_first());
    }
}

/// The roster of a text is the entry of its first line, followed by the
/// roster of what stands behind that line's line feed.
pub proof fn lemma_roster_tags_unfold(s: Seq<char>)
    ensures
        first_line_len(s) <= s.len(),
        first_line_len(s) == s.len() ==> roster_tags(s) == line_entry(s),
        first_line_len(s) < s.len() ==> roster_tags(s) == line_entry(s.take(first_line_len(s) as int))
            + roster_tags(s.skip(first_line_len(s) as int + 1)),
{
    lemma_first_line_len_bound(s);
    let n = first_line_len(s) as int;
    let head = if n >= s.len() {
        s
    } else {
        s.take(n)
    };
    let one = seq![head];
    assert(one.map_values(trimmed()) =~= seq![trim(head)]);
    assert(seq![trim(head)].filter(nonempty()) =~= line_entry(head)) by {
        reveal_with_fuel(Seq::filter, 2);
        assert(seq![trim(head)].drop_last() =~= Seq::<Seq<char>>::empty());
    }
    if n >= s.len() {
        assert(lines(s) == one);
    } else {
        let rest = lines(s.skip(n + 1));
        assert(lines(s) == one + rest);
        assert((one + rest).map_values(trimmed()) =~= one.map_values(trimmed()) + rest.map_values(
            trimmed(),
        ));
        Seq::filter_distributes_over_add(
            one.map_values(trimmed()),
            rest.map_values(trimmed()),
            nonempty(),
        );
    }
}

/// Whether `c` is white space.
pub fn is_whitespace_char(c: char) -> (white: bool)
    ensures
        white == is_whitespace(c),
{
    let u: u32 = c as u32;
    (0x09 <= u && u <= 0x0D) || u == 0x20 || u == 0x85 || u == 0xA0 || u == 0x1680 || (0x2000 <= u
        && u <= 0x200A) || u == 0x2028 || u == 0x2029 || u == 0x202F || u == 0x205F || u == 0x3000
}

/// The characters of `text`, in order.
pub fn chars_of(text: &str) -> (chars: Vec<char>)
    ensures
        chars@ == text@,
{
    let mut chars: Vec<char> = Vec::new();
    for c in it: text.chars()
        invariant
            it.seq() == text@,
            chars@ == text@.take(it.index() as int),
    {
        chars.push(c);
        assert(chars@ =~= text@.take(it.index() + 1));
    }
    assert(chars@ =~= text@);
    chars
}

/// Where the trimmed text of `chars[from..to]` starts and ends.
pub fn trim_bounds(chars: &Vec<char>, from: usize, to: usize) -> (bounds: (usize, usize))
    requires
        from <= to <= chars.len(),
    ensures
        from <= bounds.0 <= bounds.1 <= to,
        chars@.subrange(bounds.0 as int, bounds.1 as int) == trim(
            chars@.subrange(from as int, to as int),
        ),
{
    let mut start: usize = from;
    while start < to && is_whitespace_char(chars[start])
        invariant
            from <= start <= to <= chars.len(),
            trim_start(chars@.subrange(from as int, to as int)) == trim_start(
                chars@.subrange(start as int, to as int),
            ),
        decreases to - start,
    {
        assert(chars@.subrange(start as int, to as int).drop_first() =~= chars@.subrange(
            start + 1,
            to as int,
        ));
        start = start + 1;
    }
    let mut end: usize = to;
    while start < end && is_whitespace_char(chars[end - 1])
        invariant
            start <= end <= to <= chars.len(),
            trim_end(chars@.subrange(start as int, to as int)) == trim_end(
                chars@.subrange(start as int, end as int),
            ),
        decreases end - start,
    {
        assert(chars@.subrange(start as int, end as int).drop_last() =~= chars@.subrange(
            start as int,
            end - 1,
        ));
        end = end - 1;
    }
    (start, end)
}

/// Reads a roster: one tag per line of `text`, trimmed, blank lines left
/// out, in the order of the lines.
pub fn parse_roster(text: &str) -> (roster: Vec<String>)
    ensures
        roster.deep_view() == roster_tags(text@),
{
    let chars = chars_of(text);
    let n = chars.len();
    let mut roster: Vec<String> = Vec::new();
    let mut pos: usize = 0;
    let mut more = true;
    assert(text@.skip(0) =~= text@);
    assert(roster.deep_view() =~= Seq::<Seq<char>>::empty());
    while more
        invariant
            chars@ == text@,
            n == chars.len(),
            pos <= n,
            more ==> roster_tags(text@) == roster.deep_view() + roster_tags(text@.skip(pos as int)),
            !more ==> roster_tags(text@) == roster.deep_view(),
        decreases
                (if more {
                    1int
                } else {
                    0int
                }),
                n - pos,
    {
        let ghost rest = text@.skip(pos as int);
        let mut end: usize = pos;
        while end < n && chars[end] != '\n'
            invariant
                pos <= end <= n,
                chars@ == text@,
                n == chars.len(),
                rest == text@.skip(pos as int),
                first_line_len(rest) == (end - pos) + first_line_len(text@.skip(end as int)),
            decreases n - end,
        {
            assert(text@.skip(end as int).drop_first() =~= text@.skip(end + 1));
            end = end + 1;
        }
        let ghost line = text@.subrange(pos as int, end as int);
        let ghost before = roster.deep_view();
        proof {
            lemma_roster_tags_unfold(rest);
            assert(rest.take(end - pos) =~= line);
            if end == n {
                assert(rest =~= line);
            } else {
                assert(rest.skip(end - pos + 1) =~= text@.skip(end + 1));
            }
        }
        let bounds = trim_bounds(&chars, pos, end);
        if bounds.0 < bounds.1 {
            let tag = String::from_str(text.substring_char(bounds.0, bounds.1));
            roster.push(tag);
        }
        assert(roster.deep_view() =~= before + line_entry(line));
        if end < n {
            pos = end + 1;
        } else {
            more = false;
        }
    }
    roster
}

/// The roster that was read: `source` is the text of the roster where it
/// could be read, and nothing where it could not. Without a text there is no
/// roster, and every text gives one.
pub fn load_roster(source: Option<&str>) -> (loaded: Result<Vec<String>, ReportError>)
    ensures
        loaded is Ok <==> source is Some,
        loaded is Ok ==> loaded->Ok_0.deep_view() == roster_tags(source->0@),
        loaded is Err ==> loaded->Err_0 == ReportError::ResourceUnavailable,
{
    match source {
        Some(text) => Ok(parse_roster(text)),
        None => Err(ReportError::ResourceUnavailable),
    }
}

/// Whether `tag` is one of the entries of `roster`.
pub fn contains_tag(roster: &Vec<String>, tag: &String) -> (found: bool)
    ensures
        found == roster.deep_view().contains(tag@),
{
    let mut i: usize = 0;
    while i < roster.len()
        invariant
            i <= roster.len(),
            forall|j: int| 0 <= j < i ==> roster.deep_view()[j] != tag@,
        decreases roster.len() - i,
    {
        if roster[i] == *tag {
            assert(roster.deep_view()[i as int] == tag@);
            return true;
        }
        i = i + 1;
    }
    false
}

/// Trimming the lines and then dropping the empty ones gives what dropping
/// the blank lines and then trimming gives.
pub proof fn lemma_trim_then_drop(all: Seq<Seq<char>>)
    ensures
        all.map_values(trimmed()).filter(nonempty()) == all.filter(nonblank()).map_values(
            trimmed(),
        ),
    decreases all.len(),
{
    reveal(Seq::filter);
    if all.len() > 0 {
        let init = all.drop_last();
        lemma_trim_then_drop(init);
        assert(all.map_values(trimmed()).drop_last() =~= init.map_values(trimmed()));
        if nonblank()(all.last()) {
            assert(init.filter(nonblank()).push(all.last()).map_values(trimmed())
                =~= init.filter(nonblank()).map_values(trimmed()).push(trim(all.last())));
        }
    } else {
        assert(all.map_values(trimmed()).filter(nonempty()) =~= all.filter(
            nonblank(),
        ).map_values(trimmed()));
    }
}

/// A roster has one entry for each line of the text that is not blank: a tag
/// that stands on several lines is kept as often. Where no two of those lines
/// hold the same tag, the roster holds as many different tags as the text has
/// lines that are not blank.
pub proof fn lemma_roster_entry_per_line(text: Seq<char>)
    ensures
        roster_tags(text) == lines(text).filter(nonblank()).map_values(trimmed()),
        roster_tags(text).len() == lines(text).filter(nonblank()).len(),
        roster_tags(text).no_duplicates() ==> roster_tags(text).to_set().len() == lines(
            text,
        ).filter(nonblank()).len(),
{
    lemma_trim_then_drop(lines(text));
    if roster_tags(text).no_duplicates() {
        roster_tags(text).unique_seq_to_set();
    }
}

/// What is left of a text whose start was trimmed does not start with white
/// space.
pub proof fn lemma_trim_start_head(s: Seq<char>)
    ensures
        trim_start(s).len() > 0 ==> !is_whitespace(trim_start(s).first()),
    decreases s.len(),
{
    if s.len() > 0 && is_whitespace(s[0]) {
        lemma_trim_start_head(s.drop_first());
    }
}

/// What is left of a text whose end was trimmed is the start of that text,
/// and does not end with white space.
pub proof fn lemma_trim_end_tail(s: Seq<char>)
    ensures
        trim_end(s).len() <= s.len(),
        trim_end(s) == s.take(trim_end(s).len() as int),
        trim_end(s).len() > 0 ==> !is_whitespace(trim_end(s).last()),
    decreases s.len(),
{
    if s.len() > 0 && is_whitespace(s.last()) {
        lemma_trim_end_tail(s.drop_last());
        assert(s.drop_last().take(trim_end(s).len() as int) =~= s.take(trim_end(s).len() as int));
    } else {
        assert(s.take(s.len() as int) =~= s);
    }
}

/// A blank line is no entry: every entry of a roster has a character, and
/// neither starts nor ends with white space. So the empty tag is on no
/// roster.
pub proof fn lemma_roster_entries_are_trimmed(text: Seq<char>)
    ensures
        forall|i: int|
            0 <= i < roster_tags(text).len() ==> {
                let tag = #[trigger] roster_tags(text)[i];
                tag.len() > 0 && !is_whitespace(tag.first()) && !is_whitespace(tag.last())
            },
        !roster_tags(text).contains(Seq::<char>::empty()),
{
    lemma_roster_entry_per_line(text);
    let kept_lines = lines(text).filter(nonblank());
    assert forall|i: int| 0 <= i < roster_tags(text).len() implies {
        let tag = #[trigger] roster_tags(text)[i];
        tag.len() > 0 && !is_whitespace(tag.first()) && !is_whitespace(tag.last())
    } by {
        let line = kept_lines[i];
        lines(text).lemma_filter_pred(nonblank(), i);
        assert(roster_tags(text)[i] == trim(line));
        lemma_trim_start_head(line);
        lemma_trim_end_tail(trim_start(line));
    }
}

} // verus!
