//! What is read of a call of MiniMax M2 that has not come whole.
use super::markup::{
    before_next, before_sibling, call_end, fully_closed, invoke_end, is_first_named_open,
    lemma_before_next, lemma_before_sibling_bounds, lemma_named_open,
    lemma_structural_close_bounds, named_open, named_open_at, parameter_pairs, parameter_value,
    INVOKE_CLOSE, PARAM_CLOSE, TOOL_CALL_CLOSE,
};
use super::round_trip::{
    body_of, call_free_of, clear_call, clear_name, clear_parameter, clear_parameters,
    lemma_close_ends_a_tag, lemma_disjoint, lemma_last_close_is, lemma_named_open_tag,
    lemma_no_named_open, lemma_none_in_tag, lemma_parameters_round_trip,
    lemma_structural_close_some, lemma_tags, lemma_value, pairs_of, tag, written_parameters,
    MinimaxCall, MinimaxParameter,
};
use crate::text::concat::{
    lemma_contains_behind, lemma_contains_behind_tag, lemma_contains_concat, lemma_last_concat,
    lemma_occurs_concat, lemma_pattern_then, lemma_take_free, lone_head,
};
use crate::text::search::{
    contains, first_occurrence, lemma_first_occurrence, lemma_last_occurrence, occurs_at,
};
use vstd::prelude::*;

verus! {

/// A text without the last character of a pattern does not have the pattern.
pub proof fn lemma_no_last(s: Seq<char>, pat: Seq<char>)
    requires
        pat.len() > 0,
        forall|j: int| 0 <= j < s.len() ==> #[trigger] s[j] != pat.last(),
    ensures
        !contains(s, pat),
{
    assert forall|j: int| !#[trigger] occurs_at(s, pat, j) by {
        if occurs_at(s, pat, j) {
            assert(s.subrange(j, j + pat.len())[pat.len() - 1] == s[j + pat.len() - 1]);
        }
    }
}

/// An opening tag ends with its only `>`.
pub proof fn lemma_tag_end(open: Seq<char>, name: Seq<char>, j: int)
    requires
        clear_name(name),
        forall|i: int| 0 <= i < open.len() ==> #[trigger] open[i] != '>',
        0 <= j < tag(open, name).len(),
    ensures
        forall|i: int| 0 <= i < j ==> #[trigger] tag(open, name).take(j)[i] != '>',
{
    reveal_strlit(" name=\"");
    reveal_strlit("\">");
    let t = tag(open, name);
    assert forall|i: int| 0 <= i < j implies #[trigger] t.take(j)[i] != '>' by {
        let k = i - open.len() - 7;
        if i < open.len() {
            assert(t[i] == open[i]);
        } else if 0 <= k < name.len() {
            assert(t[i] == name[k]);
        }
    }
}

/// The beginning of a tag is no tag.
pub proof fn lemma_partial_tag(lead: Seq<char>, open: Seq<char>, name: Seq<char>, j: int)
    requires
        lone_head(open),
        !contains(lead, open),
        clear_name(name),
        forall|i: int| 0 <= i < open.len() ==> #[trigger] open[i] != '>',
        0 <= j < tag(open, name).len(),
    ensures
        named_open(lead + tag(open, name).take(j), open) is None,
{
    reveal_strlit(">");
    let part = tag(open, name).take(j);
    let s = lead + part;
    lemma_tag_end(open, name, j);
    lemma_named_open(s, open);
    if let Some(found) = named_open(s, open) {
        let i = choose|i: int|
            #[trigger] is_first_named_open(s, open, i) && named_open_at(s, open, i) == Some(found);
        assert(part.len() > 0 ==> part[0] == open[0]);
        lemma_occurs_concat(lead, part, open, i);
        assert(!occurs_at(lead, open, i));
        let after = s.skip(i + open.len());
        lemma_first_occurrence(after, ">"@);
        let gt = first_occurrence(after, ">"@)->0;
        assert(after.subrange(gt, gt + 1)[0] == after[gt]);
        assert(after[gt] == part[i + open.len() + gt - lead.len()]);
    }
}

/// The values hold no closing tag of a parameter, and the gaps none of a call.
pub open spec fn closed_once(params: Seq<MinimaxParameter>) -> bool {
    forall|i: int|
        0 <= i < params.len() ==> !contains((#[trigger] params[i]).value, PARAM_CLOSE@)
            && !contains(params[i].gap, INVOKE_CLOSE@)
}

/// What may stand behind the parameters of a call: no parameter, and no end of one.
pub open spec fn plain_tail(tail: Seq<char>) -> bool {
    &&& !contains(tail, "<parameter"@)
    &&& !contains(tail, PARAM_CLOSE@)
    &&& tail.len() > 0 ==> tail[0] == '<'
}

/// The number of parameters that stand whole in the first `n` characters of `lead` and then
/// `params`.
pub open spec fn whole(lead: Seq<char>, params: Seq<MinimaxParameter>, n: int) -> int
    decreases params.len(),
{
    if params.len() == 0 {
        0
    } else {
        let m = lead.len() + tag("<parameter"@, params[0].key).len() + params[0].value.len()
            + PARAM_CLOSE@.len();
        if n < m {
            0
        } else {
            1 + whole(params[0].gap, params.skip(1), n - m)
        }
    }
}

/// As more comes, more parameters stand whole in it.
pub proof fn lemma_whole_grows(
    lead: Seq<char>,
    params: Seq<MinimaxParameter>,
    n: int,
    m: int,
)
    requires
        n <= m,
    ensures
        0 <= whole(lead, params, n) <= whole(lead, params, m) <= params.len(),
    decreases params.len(),
{
    if params.len() > 0 {
        let k = lead.len() + tag("<parameter"@, params[0].key).len() + params[0].value.len()
            + PARAM_CLOSE@.len();
        lemma_whole_grows(params[0].gap, params.skip(1), n - k, m - k);
    }
}

proof fn lemma_clear_rest(params: Seq<MinimaxParameter>)
    requires
        params.len() > 0,
        clear_parameters(params),
        closed_once(params),
    ensures
        clear_parameter(params[0]),
        !contains(params[0].value, PARAM_CLOSE@),
        !contains(params[0].gap, INVOKE_CLOSE@),
        clear_parameters(params.skip(1)),
        closed_once(params.skip(1)),
{
    let more = params.skip(1);
    assert(clear_parameter(params[0]));
    assert(!contains(params[0].value, PARAM_CLOSE@));
    assert forall|i: int| 0 <= i < more.len() implies clear_parameter(#[trigger] more[i])
        && !contains(more[i].value, PARAM_CLOSE@) && !contains(more[i].gap, INVOKE_CLOSE@) by {
        assert(more[i] == params[i + 1]);
    }
}

/// The value of a parameter is read back, if what follows it has come in part.
proof fn lemma_value_cut(
    value: Seq<char>,
    gap: Seq<char>,
    params: Seq<MinimaxParameter>,
    tail: Seq<char>,
    m: int,
)
    requires
        !contains(value, "<parameter"@),
        !contains(gap, "<parameter"@),
        !contains(gap, PARAM_CLOSE@),
        clear_parameters(params),
        plain_tail(tail),
        0 <= m <= (gap + (written_parameters(params) + tail)).len(),
    ensures
        ({
            let u = (gap + (written_parameters(params) + tail)).take(m);
            parameter_value(value + (PARAM_CLOSE@ + u)) == Some((value, u))
        }),
{
    lemma_tags();
    lemma_close_ends_a_tag();
    let s = gap + (written_parameters(params) + tail);
    let u = s.take(m);
    let none = Seq::<char>::empty();
    if params.len() == 0 {
        assert(s =~= gap + tail);
        lemma_contains_concat(gap, tail, "<parameter"@);
        lemma_contains_concat(gap, tail, PARAM_CLOSE@);
        lemma_take_free(s, "<parameter"@, m);
        lemma_take_free(s, PARAM_CLOSE@, m);
        lemma_value(value, u, none);
        assert(u + none =~= u);
    } else {
        let next = params[0];
        assert(clear_parameter(params[0]));
        let open = tag("<parameter"@, next.key);
        let behind = next.value + (PARAM_CLOSE@ + (next.gap + written_parameters(params.skip(1))))
            + tail;
        assert(s =~= gap + (open + behind));
        if m <= gap.len() {
            assert(u =~= gap.take(m));
            lemma_take_free(gap, "<parameter"@, m);
            lemma_take_free(gap, PARAM_CLOSE@, m);
            lemma_value(value, u, none);
            assert(u + none =~= u);
        } else if m < gap.len() + open.len() {
            let j = m - gap.len();
            let part = open.take(j);
            assert(u =~= gap + part);
            assert(part[0] == '<');
            lemma_tag_end("<parameter"@, next.key, j);
            assert(PARAM_CLOSE@.last() == '>') by {
                reveal_strlit("</parameter>");
            }
            lemma_no_last(part, PARAM_CLOSE@);
            lemma_contains_concat(gap, part, PARAM_CLOSE@);
            lemma_unfinished_value(value, gap, next.key, j);
        } else {
            let t = behind.take(m - gap.len() - open.len());
            assert(u =~= gap + (open + t));
            lemma_value(value, gap, open + t);
        }
    }
}

/// The value of a parameter is read back, if the opening tag of the next has come in part.
proof fn lemma_unfinished_value(value: Seq<char>, gap: Seq<char>, key: Seq<char>, j: int)
    requires
        !contains(value, "<parameter"@),
        !contains(gap, "<parameter"@),
        clear_name(key),
        0 <= j < tag("<parameter"@, key).len(),
        !contains(gap + tag("<parameter"@, key).take(j), PARAM_CLOSE@),
    ensures
        ({
            let u = gap + tag("<parameter"@, key).take(j);
            parameter_value(value + (PARAM_CLOSE@ + u)) == Some((value, u))
        }),
{
    lemma_tags();
    lemma_close_ends_a_tag();
    let part = tag("<parameter"@, key).take(j);
    let u = gap + part;
    let s = value + (PARAM_CLOSE@ + u);
    let lead = value + (PARAM_CLOSE@ + gap);
    lemma_contains_behind_tag(PARAM_CLOSE@, gap, "<parameter"@, 1);
    lemma_contains_concat(value, PARAM_CLOSE@ + gap, "<parameter"@);
    assert(s =~= lead + part);
    lemma_partial_tag(lead, "<parameter"@, key, j);
    lemma_pattern_then(PARAM_CLOSE@, u);
    lemma_last_concat(value, PARAM_CLOSE@ + u, PARAM_CLOSE@);
    assert(s.take(value.len() as int) =~= value);
    assert(s.skip(value.len() as int + PARAM_CLOSE@.len()) =~= u);
}

/// A value of which the closing tag has not come whole is not read.
proof fn lemma_open_value(value: Seq<char>, m: int)
    requires
        !contains(value, PARAM_CLOSE@),
        0 <= m < value.len() + PARAM_CLOSE@.len(),
    ensures
        parameter_value((value + PARAM_CLOSE@).take(m)) is None,
{
    lemma_tags();
    let t = (value + PARAM_CLOSE@).take(m);
    assert(!contains(t, PARAM_CLOSE@)) by {
        if m <= value.len() {
            assert(t =~= value.take(m));
            lemma_take_free(value, PARAM_CLOSE@, m);
        } else {
            let part = PARAM_CLOSE@.take(m - value.len());
            assert(t =~= value + part);
            assert(part[0] == '<');
            assert(!contains(part, PARAM_CLOSE@));
            lemma_contains_concat(value, part, PARAM_CLOSE@);
        }
    }
    let region = before_sibling(t, "<parameter"@);
    lemma_before_sibling_bounds(t, "<parameter"@);
    lemma_take_free(t, PARAM_CLOSE@, region.len() as int);
    lemma_last_occurrence(region, PARAM_CLOSE@);
}

/// Of parameters that have come in part, those are read that have come whole.
pub proof fn lemma_pairs_cut(
    lead: Seq<char>,
    params: Seq<MinimaxParameter>,
    tail: Seq<char>,
    n: int,
)
    requires
        !contains(lead, "<parameter"@),
        clear_parameters(params),
        closed_once(params),
        plain_tail(tail),
        0 <= n <= (lead + (written_parameters(params) + tail)).len(),
    ensures
        parameter_pairs((lead + (written_parameters(params) + tail)).take(n)) == pairs_of(
            params,
        ).take(whole(lead, params, n)),
    decreases params.len(),
{
    lemma_tags();
    lemma_close_ends_a_tag();
    let s = lead + (written_parameters(params) + tail);
    let t = s.take(n);
    if params.len() == 0 {
        assert(s =~= lead + tail);
        lemma_contains_concat(lead, tail, "<parameter"@);
        lemma_take_free(s, "<parameter"@, n);
        lemma_no_named_open(t, "<parameter"@);
        assert(pairs_of(params).take(0) =~= seq![]);
    } else {
        let p = params[0];
        let more = params.skip(1);
        lemma_clear_rest(params);
        let open = tag("<parameter"@, p.key);
        let rest = p.gap + (written_parameters(more) + tail);
        let behind = p.value + (PARAM_CLOSE@ + rest);
        assert(s =~= lead + (open + behind));
        let m = lead.len() + open.len() + p.value.len() + PARAM_CLOSE@.len();
        if n < m {
            assert(pairs_of(params).take(0) =~= seq![]);
            if n <= lead.len() {
                assert(t =~= lead.take(n));
                lemma_take_free(lead, "<parameter"@, n);
                lemma_no_named_open(t, "<parameter"@);
            } else if n < lead.len() + open.len() {
                assert(t =~= lead + open.take(n - lead.len()));
                lemma_partial_tag(lead, "<parameter"@, p.key, n - lead.len());
            } else {
                let i = n - lead.len() - open.len();
                let value = (p.value + PARAM_CLOSE@).take(i);
                assert(t =~= lead + (open + value));
                lemma_named_open_tag(lead, "<parameter"@, p.key, value);
                lemma_open_value(p.value, i);
            }
        } else {
            let u = rest.take(n - m);
            assert(t =~= lead + (open + (p.value + (PARAM_CLOSE@ + u))));
            lemma_named_open_tag(lead, "<parameter"@, p.key, p.value + (PARAM_CLOSE@ + u));
            lemma_value_cut(p.value, p.gap, more, tail, n - m);
            lemma_pairs_cut(p.gap, more, tail, n - m);
            let k = whole(p.gap, more, n - m);
            lemma_whole_grows(p.gap, more, n - m, n - m);
            assert(pairs_of(params).take(1 + k) =~= seq![(p.key, p.value)] + pairs_of(more).take(
                k,
            ));
        }
    }
}

/// The closing tag of a call stands in the value of a parameter, or in what follows the parameter.
proof fn lemma_close_place(
    lead: Seq<char>,
    key: Seq<char>,
    value: Seq<char>,
    rest: Seq<char>,
    c: int,
)
    requires
        !contains(lead, INVOKE_CLOSE@),
        clear_name(key),
        occurs_at(
            lead + (tag("<parameter"@, key) + (value + (PARAM_CLOSE@ + rest))),
            INVOKE_CLOSE@,
            c,
        ),
    ensures
        ({
            let d = c - lead.len() - tag("<parameter"@, key).len();
            occurs_at(value, INVOKE_CLOSE@, d) || occurs_at(
                rest,
                INVOKE_CLOSE@,
                d - value.len() - PARAM_CLOSE@.len(),
            )
        }),
{
    lemma_tags();
    lemma_close_ends_a_tag();
    let open = tag("<parameter"@, key);
    let close = PARAM_CLOSE@ + rest;
    let behind = value + close;
    assert((open + behind)[0] == '<');
    assert(close[0] == '<');
    lemma_occurs_concat(lead, open + behind, INVOKE_CLOSE@, c);
    assert(!occurs_at(lead, INVOKE_CLOSE@, c));
    lemma_none_in_tag("<parameter"@, key, behind, INVOKE_CLOSE@);
    let d = c - lead.len() - open.len();
    assert(occurs_at(behind, INVOKE_CLOSE@, d));
    lemma_occurs_concat(value, close, INVOKE_CLOSE@, d);
    if !occurs_at(value, INVOKE_CLOSE@, d) {
        let e = d - value.len();
        assert forall|j: int| 0 <= j < PARAM_CLOSE@.len() implies !#[trigger] occurs_at(
            close,
            INVOKE_CLOSE@,
            j,
        ) by {
            if occurs_at(close, INVOKE_CLOSE@, j) {
                let found = close.subrange(j, j + INVOKE_CLOSE@.len());
                assert(found[0] == close[j] && found[2] == close[j + 2]);
            }
        }
        lemma_contains_behind(PARAM_CLOSE@, rest, INVOKE_CLOSE@);
        assert(e >= PARAM_CLOSE@.len());
    }
}

/// Before the closing tag of a call that stands literally in a value, a parameter is open.
proof fn lemma_literal_close(lead: Seq<char>, params: Seq<MinimaxParameter>, c: int)
    requires
        !contains(lead, "<parameter"@),
        !contains(lead, INVOKE_CLOSE@),
        clear_parameters(params),
        closed_once(params),
        occurs_at(lead + written_parameters(params), INVOKE_CLOSE@, c),
    ensures
        !fully_closed((lead + written_parameters(params)).take(c)),
    decreases params.len(),
{
    lemma_tags();
    let s = lead + written_parameters(params);
    if params.len() == 0 {
        assert(s =~= lead);
    } else {
        let p = params[0];
        let more = params.skip(1);
        lemma_clear_rest(params);
        let open = tag("<parameter"@, p.key);
        let rest = p.gap + written_parameters(more);
        assert(s =~= lead + (open + (p.value + (PARAM_CLOSE@ + rest))));
        lemma_close_place(lead, p.key, p.value, rest, c);
        let c2 = c - lead.len() - open.len();
        if occurs_at(p.value, INVOKE_CLOSE@, c2) {
            let value = (p.value + PARAM_CLOSE@).take(c2);
            assert(s.take(c) =~= lead + (open + value));
            lemma_named_open_tag(lead, "<parameter"@, p.key, value);
            lemma_open_value(p.value, c2);
        } else {
            let d = c2 - p.value.len() - PARAM_CLOSE@.len();
            lemma_literal_close(p.gap, more, d);
            let none = Seq::<char>::empty();
            let u = rest.take(d);
            assert(s.take(c) =~= lead + (open + (p.value + (PARAM_CLOSE@ + u))));
            lemma_named_open_tag(lead, "<parameter"@, p.key, p.value + (PARAM_CLOSE@ + u));
            assert(p.gap + (written_parameters(more) + none) =~= rest);
            assert(plain_tail(none));
            lemma_value_cut(p.value, p.gap, more, none, d);
        }
    }
}

/// The call can be told from its siblings wherever it is cut: closing tags do not stand where
/// they would end it before its end, and no name comes twice.
pub open spec fn clear_when_cut(call: MinimaxCall) -> bool {
    &&& clear_call(call)
    &&& call_free_of(call, TOOL_CALL_CLOSE@)
    &&& !contains(call.head, INVOKE_CLOSE@)
    &&& closed_once(call.params)
    &&& forall|i: int, j: int|
        0 <= i < j < call.params.len() ==> (#[trigger] call.params[i]).key != (
        #[trigger] call.params[j]).key
}

/// A call of which the closing tag has not come whole does not end.
pub proof fn lemma_no_end(call: MinimaxCall, n: int)
    requires
        clear_when_cut(call),
        0 <= n < (body_of(call) + INVOKE_CLOSE@).len(),
    ensures
        call_end((body_of(call) + INVOKE_CLOSE@).take(n)) is None,
{
    lemma_tags();
    let body = body_of(call);
    let full = body + INVOKE_CLOSE@;
    let s = full.take(n);
    let ok = |t: Seq<char>| fully_closed(t);
    lemma_structural_close_bounds(s, INVOKE_CLOSE@, ok, 0);
    if let Some(c) = invoke_end(s) {
        assert(full.subrange(c, c + INVOKE_CLOSE@.len()) =~= s.subrange(
            c,
            c + INVOKE_CLOSE@.len(),
        ));
        lemma_occurs_concat(body, INVOKE_CLOSE@, INVOKE_CLOSE@, c);
        lemma_literal_close(call.head, call.params, c);
        assert(s.take(c) =~= body.take(c));
    }
}

/// A call ends at its closing tag, as soon as that has come, where no other stands before the
/// next call.
pub proof fn lemma_end_cut(call: MinimaxCall, more: Seq<char>)
    requires
        clear_when_cut(call),
        !contains(before_next(more), INVOKE_CLOSE@),
    ensures
        call_end(body_of(call) + (INVOKE_CLOSE@ + more)) == Some(body_of(call).len() as int),
{
    lemma_tags();
    let close = INVOKE_CLOSE@;
    let body = body_of(call);
    let n = body.len() as int;
    let s = body + (close + more);
    let ok = |t: Seq<char>| fully_closed(t);
    lemma_parameters_round_trip(call.head, call.params);
    assert(s.take(n) =~= body);
    assert(s.subrange(n, n + close.len()) =~= close);
    lemma_structural_close_some(s, close, ok, 0, n);
    lemma_structural_close_bounds(s, close, ok, 0);
    let c = invoke_end(s)->0;
    if c < n {
        lemma_disjoint(s, close, c, n);
        assert(body.subrange(c, c + close.len()) =~= s.subrange(c, c + close.len()));
        lemma_literal_close(call.head, call.params, c);
        assert(s.take(c) =~= body.take(c));
    }
    let from = n + close.len();
    assert(s.skip(from) =~= more);
    let part = before_next(more);
    lemma_before_next(more);
    assert(s.take(from + part.len()) =~= body + (close + part));
    lemma_last_close_is(call.head, call.params, part);
}

} // verus!
