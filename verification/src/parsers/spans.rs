//! Blocks between an opening and a closing token.
use crate::text::concat::{
    lemma_contains_behind_tag, lemma_contains_concat, lemma_first_behind, lemma_last_concat,
    lemma_pattern_then, lone_head,
};
use crate::text::encoding::byte_offset;
use crate::text::search::{
    byte_len, contains, cut, first_occurrence, is_first, last_occurrence, lemma_first_in_rest,
    lemma_first_is, lemma_first_occurrence, lemma_last_occurrence, occurs_at, offset_of_rest, rcut,
    split,
};
use vstd::prelude::*;

verus! {

/// What stands in `after` before the next `open`.
pub open spec fn before_open(after: Seq<char>, open: Seq<char>) -> Seq<char> {
    match first_occurrence(after, open) {
        Some(i) => after.take(i),
        None => after,
    }
}

/// The blocks of `text` from position `from` on, each by the position of its first character
/// and the position past its last. A block reaches from `open` to the last `close` before the
/// next `open`; the blocks end with the first `open` that is not closed so.
pub open spec fn spans(text: Seq<char>, open: Seq<char>, close: Seq<char>, from: int) -> Seq<
    (int, int),
>
    decreases text.len() - from,
{
    if open.len() == 0 || from < 0 || from > text.len() {
        seq![]
    } else {
        match first_occurrence(text.skip(from), open) {
            Some(i) => {
                let inner = from + i + open.len();
                let region = before_open(text.skip(inner), open);
                match last_occurrence(region, close) {
                    Some(c) => {
                        proof {
                            lemma_first_occurrence(text.skip(from), open);
                            lemma_before_open_bounds(text.skip(inner), open);
                            lemma_last_occurrence(region, close);
                        }
                        seq![(from + i, inner + c + close.len())] + spans(
                            text,
                            open,
                            close,
                            inner + c + close.len(),
                        )
                    },
                    None => seq![],
                }
            },
            None => seq![],
        }
    }
}

/// What stands before the next `open` is a prefix.
pub proof fn lemma_before_open_bounds(after: Seq<char>, open: Seq<char>)
    ensures
        before_open(after, open).len() <= after.len(),
        before_open(after, open) == after.take(before_open(after, open).len() as int),
{
    lemma_first_occurrence(after, open);
    assert(after.take(after.len() as int) =~= after);
}

/// Blocks lie in the text, in order and without overlap.
pub proof fn lemma_spans_ordered(text: Seq<char>, open: Seq<char>, close: Seq<char>, from: int)
    ensures
        forall|i: int|
            0 <= i < spans(text, open, close, from).len() ==> {
                let span = #[trigger] spans(text, open, close, from)[i];
                from <= span.0 && span.0 + open.len() + close.len() <= span.1 <= text.len()
            },
        forall|i: int, j: int|
            0 <= i < j < spans(text, open, close, from).len() ==> (#[trigger] spans(
                text,
                open,
                close,
                from,
            )[i]).1 <= (#[trigger] spans(text, open, close, from)[j]).0,
    decreases text.len() - from,
{
    if open.len() > 0 && 0 <= from <= text.len() {
        if let Some(i) = first_occurrence(text.skip(from), open) {
            let inner = from + i + open.len();
            let region = before_open(text.skip(inner), open);
            lemma_first_occurrence(text.skip(from), open);
            lemma_before_open_bounds(text.skip(inner), open);
            lemma_last_occurrence(region, close);
            if let Some(c) = last_occurrence(region, close) {
                let span = (from + i, inner + c + close.len());
                let more = spans(text, open, close, span.1);
                let all = spans(text, open, close, from);
                lemma_spans_ordered(text, open, close, span.1);
                assert(all == seq![span] + more);
                assert(forall|j: int| 0 < j < all.len() ==> #[trigger] all[j] == more[j - 1]);
            }
        }
    }
}

/// The blocks from a position on are the blocks of the text from there, moved by the position.
pub proof fn lemma_spans_shift(
    text: Seq<char>,
    open: Seq<char>,
    close: Seq<char>,
    d: int,
    from: int,
)
    requires
        0 <= d <= text.len(),
        0 <= from,
    ensures
        spans(text, open, close, d + from).len() == spans(text.skip(d), open, close, from).len(),
        forall|i: int|
            0 <= i < spans(text.skip(d), open, close, from).len() ==> {
                let span = #[trigger] spans(text, open, close, d + from)[i];
                let moved = spans(text.skip(d), open, close, from)[i];
                span.0 == d + moved.0 && span.1 == d + moved.1
            },
    decreases text.len() - d - from,
{
    let rest = text.skip(d);
    if open.len() > 0 && from <= rest.len() {
        assert(text.skip(d + from) =~= rest.skip(from));
        if let Some(i) = first_occurrence(rest.skip(from), open) {
            let inner = from + i + open.len();
            let region = before_open(rest.skip(inner), open);
            lemma_first_occurrence(rest.skip(from), open);
            assert(text.skip(d + inner) =~= rest.skip(inner));
            lemma_before_open_bounds(rest.skip(inner), open);
            lemma_last_occurrence(region, close);
            if let Some(c) = last_occurrence(region, close) {
                let end = inner + c + close.len();
                lemma_spans_shift(text, open, close, d, end);
                let all = spans(text, open, close, d + from);
                let more = spans(text, open, close, d + end);
                let moved = spans(rest, open, close, from);
                let moved_more = spans(rest, open, close, end);
                assert(all == seq![(d + from + i, d + end)] + more);
                assert(moved == seq![(from + i, end)] + moved_more);
                assert forall|k: int| 0 <= k < moved.len() implies {
                    let span = #[trigger] all[k];
                    span.0 == d + moved[k].0 && span.1 == d + moved[k].1
                } by {
                    if k > 0 {
                        assert(all[k] == more[k - 1]);
                        assert(moved[k] == moved_more[k - 1]);
                    }
                }
            }
        }
    }
}

/// A block begins with the opening token.
pub proof fn lemma_spans_open(text: Seq<char>, open: Seq<char>, close: Seq<char>, from: int)
    ensures
        forall|i: int|
            0 <= i < spans(text, open, close, from).len() ==> occurs_at(
                text,
                open,
                (#[trigger] spans(text, open, close, from)[i]).0,
            ),
    decreases text.len() - from,
{
    if open.len() > 0 && 0 <= from <= text.len() {
        if let Some(i) = first_occurrence(text.skip(from), open) {
            let inner = from + i + open.len();
            let region = before_open(text.skip(inner), open);
            lemma_first_in_rest(text, open, from);
            lemma_first_occurrence(text.skip(from), open);
            lemma_before_open_bounds(text.skip(inner), open);
            lemma_last_occurrence(region, close);
            if let Some(c) = last_occurrence(region, close) {
                let end = inner + c + close.len();
                let more = spans(text, open, close, end);
                let all = spans(text, open, close, from);
                lemma_spans_open(text, open, close, end);
                assert(all == seq![(from + i, end)] + more);
                assert(forall|j: int| 0 < j < all.len() ==> #[trigger] all[j] == more[j - 1]);
            }
        }
    }
}

/// The blocks from one of them on are those that are found from its beginning.
pub proof fn lemma_spans_tail(
    text: Seq<char>,
    open: Seq<char>,
    close: Seq<char>,
    from: int,
    k: int,
)
    requires
        0 <= k < spans(text, open, close, from).len(),
    ensures
        spans(text, open, close, from).skip(k) == spans(
            text,
            open,
            close,
            spans(text, open, close, from)[k].0,
        ),
    decreases text.len() - from,
{
    let all = spans(text, open, close, from);
    let i = first_occurrence(text.skip(from), open)->0;
    lemma_first_occurrence(text.skip(from), open);
    let pos = from + i;
    let inner = from + i + open.len();
    let region = before_open(text.skip(inner), open);
    lemma_before_open_bounds(text.skip(inner), open);
    lemma_last_occurrence(region, close);
    let c = last_occurrence(region, close)->0;
    let end = inner + c + close.len();
    let more = spans(text, open, close, end);
    assert(all == seq![(pos, end)] + more);
    if k == 0 {
        let rest = text.skip(pos);
        assert(rest.subrange(0, open.len() as int) =~= text.skip(from).subrange(
            i,
            i + open.len(),
        ));
        assert(is_first(rest, open, 0));
        lemma_first_is(rest, open, 0);
        assert(all.skip(0) =~= all);
    } else {
        lemma_spans_tail(text, open, close, end, k - 1);
        assert(all.skip(k) =~= more.skip(k - 1));
        assert(all[k] == more[k - 1]);
    }
}

/// The blocks end with the first opening token that is not closed before the next, whatever
/// follows it.
pub proof fn lemma_spans_unclosed(
    lead: Seq<char>,
    inner: Seq<char>,
    rest: Seq<char>,
    open: Seq<char>,
    close: Seq<char>,
)
    requires
        lone_head(open),
        !contains(lead, open),
        !contains(inner, open),
        !contains(inner, close),
        rest.len() == 0 || rest.len() >= open.len() && rest.take(open.len() as int) == open,
    ensures
        spans(lead + (open + (inner + rest)), open, close, 0).len() == 0,
        blocks(lead + (open + (inner + rest)), open, close).len() == 0,
        first_occurrence(lead + (open + (inner + rest)), open) == Some(lead.len() as int),
{
    let after = inner + rest;
    let text = lead + (open + after);
    lemma_first_behind(lead, open, after);
    assert(text.skip(0) =~= text);
    assert(text.skip(lead.len() as int + open.len()) =~= after);
    lemma_first_occurrence(inner, open);
    if rest.len() > 0 {
        assert(rest =~= open + rest.skip(open.len() as int));
        lemma_first_behind(inner, open, rest.skip(open.len() as int));
        assert(after.take(inner.len() as int) =~= inner);
    } else {
        assert(after =~= inner);
    }
    assert(before_open(after, open) == inner);
    lemma_last_occurrence(inner, close);
}

/// The byte offsets `r` stand for the positions `spans` of `text`.
pub open spec fn offsets_for(r: Seq<(usize, usize)>, text: Seq<char>, spans: Seq<(int, int)>) -> bool {
    &&& r.len() == spans.len()
    &&& forall|i: int|
        0 <= i < r.len() ==> {
            &&& (#[trigger] r[i]).0 == byte_offset(text, spans[i].0)
            &&& r[i].1 == byte_offset(text, spans[i].1)
        }
}

/// The blocks of `text` between `open` and `close`, by the byte offsets at which they begin and
/// end.
#[verifier::rlimit(30)]
pub fn find_spans(text: &str, open: &str, close: &str) -> (r: Vec<(usize, usize)>)
    requires
        open@.len() > 0,
        close@.len() > 0,
    ensures
        offsets_for(r@, text@, spans(text@, open@, close@, 0)),
{
    let mut found: Vec<(usize, usize)> = Vec::new();
    let mut rest = text;
    let ghost all = spans(text@, open@, close@, 0);
    let ghost mut from: int = 0;
    proof {
        assert(text@.skip(0) =~= text@);
        assert(all.skip(0) =~= all);
    }
    loop
        invariant
            open@.len() > 0,
            close@.len() > 0,
            0 <= from <= text@.len(),
            rest@ == text@.skip(from),
            all == spans(text@, open@, close@, 0),
            found@.len() <= all.len(),
            offsets_for(found@, text@, all.take(found@.len() as int)),
            spans(text@, open@, close@, from) == all.skip(found@.len() as int),
        decreases rest@.len(),
    {
        let ghost n = found@.len() as int;
        assert(all.take(all.len() as int) =~= all);
        match cut(rest, open) {
            Some((at, _, after)) => {
                let ghost i = first_occurrence(rest@, open@)->0;
                let ghost inner = from + i + open@.len();
                assert(after@ =~= text@.skip(inner));
                let region = match cut(after, open) {
                    Some((_, region, _)) => region,
                    None => after,
                };
                proof {
                    lemma_before_open_bounds(after@, open@);
                }
                match rcut(region, close) {
                    Some((_, head, _)) => {
                        let ghost c = last_occurrence(region@, close@)->0;
                        proof {
                            assert(region@.take(c + close@.len()) =~= after@.take(
                                c + close@.len(),
                            ));
                            assert(text@.skip(from).skip(i) =~= text@.skip(from + i));
                        }
                        let bound = byte_len(after);
                        let begin = offset_of_rest(
                            text,
                            split(rest, at, Ghost(i)).1,
                            Ghost(from + i),
                        );
                        let tail = split(
                            after,
                            byte_len(head) + byte_len(close),
                            Ghost(c + close@.len()),
                        ).1;
                        proof {
                            assert(tail@ =~= text@.skip(inner + c + close@.len()));
                        }
                        let end = offset_of_rest(text, tail, Ghost(inner + c + close@.len()));
                        let ghost before = found@;
                        found.push((begin, end));
                        proof {
                            let span = (from + i, inner + c + close@.len());
                            let more = spans(text@, open@, close@, span.1);
                            assert(all.skip(n) == seq![span] + more);
                            assert(all[n] == (seq![span] + more)[0]) by {
                                assert(all[n] == all.skip(n)[0]);
                            }
                            assert(all.skip(n + 1) =~= all.skip(n).skip(1));
                            assert(all.skip(n).skip(1) =~= more);
                            assert forall|j: int| 0 <= j < found@.len() implies {
                                &&& (#[trigger] found@[j]).0 == byte_offset(
                                    text@,
                                    all.take(n + 1)[j].0,
                                )
                                &&& found@[j].1 == byte_offset(text@, all.take(n + 1)[j].1)
                            } by {
                                if j < n {
                                    assert(found@[j] == before[j]);
                                    assert(all.take(n)[j] == all.take(n + 1)[j]);
                                }
                            }
                            from = span.1;
                        }
                        rest = tail;
                    },
                    None => {
                        assert(all.skip(n).len() == 0);
                        return found;
                    },
                }
            },
            None => {
                assert(all.skip(n).len() == 0);
                return found;
            },
        }
    }
}

/// The blocks of `text` between `open` and `close`.
pub open spec fn blocks(text: Seq<char>, open: Seq<char>, close: Seq<char>) -> Seq<Seq<char>> {
    let all = spans(text, open, close, 0);
    Seq::new(all.len(), |i: int| text.subrange(all[i].0, all[i].1))
}

/// Some blocks, each by its inside, with the text that follows it.
pub open spec fn written_blocks(
    items: Seq<(Seq<char>, Seq<char>)>,
    open: Seq<char>,
    close: Seq<char>,
) -> Seq<char>
    decreases items.len(),
{
    if items.len() == 0 {
        seq![]
    } else {
        open + (items[0].0 + (close + (items[0].1 + written_blocks(items.skip(1), open, close))))
    }
}

/// The blocks can be told from each other and from the text between them. The inside of a block
/// may hold the closing token.
pub open spec fn clear_blocks(
    items: Seq<(Seq<char>, Seq<char>)>,
    open: Seq<char>,
    close: Seq<char>,
) -> bool {
    forall|i: int|
        0 <= i < items.len() ==> {
            &&& !contains((#[trigger] items[i]).0, open)
            &&& !contains(items[i].1, open)
            &&& !contains(items[i].1, close)
        }
}

/// The two tokens can be told apart: both begin with a character that does not come again in
/// them, and they differ in the next.
pub open spec fn clear_tokens(open: Seq<char>, close: Seq<char>) -> bool {
    &&& lone_head(open)
    &&& lone_head(close)
    &&& open.len() >= 2
    &&& close.len() >= 2
    &&& open[0] == close[0]
    &&& open[1] != close[1]
}

/// What is written begins with the opening token, if there is any.
pub proof fn lemma_written_blocks_head(
    items: Seq<(Seq<char>, Seq<char>)>,
    open: Seq<char>,
    close: Seq<char>,
)
    requires
        open.len() > 0,
    ensures
        items.len() > 0 ==> {
            let s = written_blocks(items, open, close);
            &&& s.len() >= open.len()
            &&& s == open + s.skip(open.len() as int)
        },
{
    if items.len() > 0 {
        let s = written_blocks(items, open, close);
        assert(s =~= open + s.skip(open.len() as int));
    }
}

/// The blocks of a text are those that were written in it, and the first begins where the text
/// before them ends.
#[verifier::rlimit(30)]
pub proof fn lemma_blocks_written(
    lead: Seq<char>,
    items: Seq<(Seq<char>, Seq<char>)>,
    open: Seq<char>,
    close: Seq<char>,
)
    requires
        clear_tokens(open, close),
        !contains(lead, open),
        clear_blocks(items, open, close),
    ensures
        blocks(lead + written_blocks(items, open, close), open, close) == Seq::new(
            items.len(),
            |i: int| open + (items[i].0 + close),
        ),
        first_occurrence(lead + written_blocks(items, open, close), open) == (if items.len() > 0 {
            Some(lead.len() as int)
        } else {
            None
        }),
        items.len() > 0 ==> spans(
            lead + written_blocks(items, open, close),
            open,
            close,
            0,
        )[0] == (
            lead.len() as int,
            lead.len() as int + open.len() + items[0].0.len() + close.len(),
        ),
    decreases items.len(),
{
    let text = lead + written_blocks(items, open, close);
    let found = spans(text, open, close, 0);
    assert(text.skip(0) =~= text);
    if items.len() == 0 {
        assert(text =~= lead);
        lemma_first_occurrence(lead, open);
        assert(blocks(text, open, close) =~= seq![]);
    } else {
        let (inner, gap) = items[0];
        assert(!contains(items[0].0, open));
        let more = items.skip(1);
        let rest = written_blocks(more, open, close);
        let tail = close + gap;
        let region = inner + tail;
        lemma_written_blocks_head(items, open, close);
        lemma_written_blocks_head(more, open, close);
        lemma_first_behind(
            lead,
            open,
            written_blocks(items, open, close).skip(open.len() as int),
        );
        let begin = lead.len() as int;
        let behind = begin + open.len();
        assert(text.skip(behind) =~= region + rest);
        assert(tail[0] == close[0]);
        assert(!contains(region, open)) by {
            lemma_contains_behind_tag(close, gap, open, 1);
            lemma_contains_concat(inner, tail, open);
        }
        lemma_first_occurrence(region, open);
        if more.len() > 0 {
            lemma_first_behind(region, open, rest.skip(open.len() as int));
            assert((region + rest).take(region.len() as int) =~= region);
        } else {
            assert(region + rest =~= region);
        }
        assert(before_open(text.skip(behind), open) == region);
        lemma_pattern_then(close, gap);
        lemma_last_concat(inner, tail, close);
        let end = behind + inner.len() + close.len();
        assert(found == seq![(begin, end)] + spans(text, open, close, end));
        assert(text.subrange(begin, end) =~= open + (inner + close));
        assert(text.skip(end) =~= gap + rest);
        assert forall|i: int| 0 <= i < more.len() implies {
            &&& !contains((#[trigger] more[i]).0, open)
            &&& !contains(more[i].1, open)
            &&& !contains(more[i].1, close)
        } by {
            assert(more[i] == items[i + 1]);
        }
        lemma_blocks_written(gap, more, open, close);
        lemma_spans_shift(text, open, close, end, 0);
        lemma_spans_ordered(text.skip(end), open, close, 0);
        let later = blocks(gap + rest, open, close);
        assert(later.len() == more.len());
        assert(later.len() == spans(text.skip(end), open, close, 0).len());
        assert forall|i: int| 0 <= i < items.len() implies #[trigger] blocks(text, open, close)[i]
            == open + (items[i].0 + close) by {
            if i > 0 {
                let span = spans(text, open, close, end + 0)[i - 1];
                let moved = spans(text.skip(end), open, close, 0)[i - 1];
                assert(found[i] == span);
                assert(text.subrange(span.0, span.1) =~= text.skip(end).subrange(
                    moved.0,
                    moved.1,
                ));
                assert(later[i - 1] == open + (more[i - 1].0 + close));
            }
        }
        assert(blocks(text, open, close) =~= Seq::new(
            items.len(),
            |i: int| open + (items[i].0 + close),
        ));
    }
}

/// The blocks of `text` between `open` and `close`, each with the byte offset at which it
/// begins.
pub fn find_blocks<'a>(text: &'a str, open: &str, close: &str) -> (r: Vec<(usize, &'a str)>)
    requires
        open@.len() > 0,
        close@.len() > 0,
    ensures
        r@.len() == blocks(text@, open@, close@).len(),
        forall|i: int|
            0 <= i < r@.len() ==> {
                &&& (#[trigger] r@[i]).0 == byte_offset(
                    text@,
                    spans(text@, open@, close@, 0)[i].0,
                )
                &&& r@[i].1@ == blocks(text@, open@, close@)[i]
            },
{
    let found = find_spans(text, open, close);
    let ghost all = spans(text@, open@, close@, 0);
    let n = found.len();
    let mut r: Vec<(usize, &'a str)> = Vec::new();
    let mut i: usize = 0;
    proof {
        lemma_spans_ordered(text@, open@, close@, 0);
    }
    while i < n
        invariant
            n == found@.len(),
            all == spans(text@, open@, close@, 0),
            offsets_for(found@, text@, all),
            forall|j: int|
                0 <= j < all.len() ==> {
                    let span = #[trigger] all[j];
                    0 <= span.0 <= span.1 <= text@.len()
                },
            i <= n,
            r@.len() == i,
            forall|j: int|
                0 <= j < i ==> {
                    &&& (#[trigger] r@[j]).0 == byte_offset(text@, all[j].0)
                    &&& r@[j].1@ == text@.subrange(all[j].0, all[j].1)
                },
        decreases n - i,
    {
        let (begin, end) = found[i];
        let ghost span = all[i as int];
        let head = split(text, end, Ghost(span.1)).0;
        proof {
            assert(head@.take(span.0) =~= text@.take(span.0));
            assert(head@.skip(span.0) =~= text@.subrange(span.0, span.1));
        }
        let block = split(head, begin, Ghost(span.0)).1;
        r.push((begin, block));
        i += 1;
    }
    r
}

} // verus!
