//! What is written in the format of MiniMax M2 is read back.
use super::markup::{
    before_next, before_sibling, call_end, fully_closed, invoke_blocks, invoke_end,
    is_first_named_open, last_close, lemma_named_open, lemma_named_open_is,
    lemma_structural_close_bounds, name_attribute, named_open, named_open_at, parameter_pairs,
    parameter_value, structural_close, tag_rest, INVOKE_CLOSE, PARAM_CLOSE, TOOL_CALL_CLOSE,
    TOOL_CALL_OPEN,
};
use super::{arguments_of, block_calls, complete, groups, groups_calls};
use crate::json::{json_text, members_of, JsonModel};
use crate::parsers::helpers::properties_of;
use crate::parsers::spans::{clear_tokens, lemma_blocks_written, written_blocks};
use crate::text::concat::{
    lemma_contains_behind, lemma_contains_behind_plain, lemma_contains_behind_tag,
    lemma_contains_concat, lemma_first_behind, lemma_first_concat, lemma_last_concat, lemma_no_head,
    lemma_pattern_then, lemma_skip_free, lone_head,
};
use crate::text::search::{
    contains, first_occurrence, lemma_first_in_rest, lemma_first_occurrence, occurs_at,
};
use crate::types::{CallModel, Tool};
use vstd::prelude::*;

verus! {

/// An opening tag, by what it begins with and the value of its attribute `name`.
pub open spec fn tag(open: Seq<char>, name: Seq<char>) -> Seq<char> {
    open + (" name=\""@ + (name + "\">"@))
}

/// The name can be told from the tag that it stands in.
pub open spec fn clear_name(name: Seq<char>) -> bool {
    forall|j: int| 0 <= j < name.len() ==> #[trigger] name[j] != '"' && name[j] != '>'
}

/// A parameter, by its name and its value, with the text that follows it.
pub struct MinimaxParameter {
    pub key: Seq<char>,
    pub value: Seq<char>,
    pub gap: Seq<char>,
}

/// Some parameters, as the format writes them.
pub open spec fn written_parameters(params: Seq<MinimaxParameter>) -> Seq<char>
    decreases params.len(),
{
    if params.len() == 0 {
        seq![]
    } else {
        tag("<parameter"@, params[0].key) + (params[0].value + (PARAM_CLOSE@ + (params[0].gap
            + written_parameters(params.skip(1)))))
    }
}

/// The parameter can be told from its siblings. Its value may hold the closing tag of a
/// parameter.
pub open spec fn clear_parameter(p: MinimaxParameter) -> bool {
    &&& clear_name(p.key)
    &&& !contains(p.value, "<parameter"@)
    &&& !contains(p.gap, "<parameter"@)
    &&& !contains(p.gap, PARAM_CLOSE@)
}

/// The parameters can be told from each other.
pub open spec fn clear_parameters(params: Seq<MinimaxParameter>) -> bool {
    forall|i: int| 0 <= i < params.len() ==> clear_parameter(#[trigger] params[i])
}

/// The names and values of some parameters.
pub open spec fn pairs_of(params: Seq<MinimaxParameter>) -> Seq<(Seq<char>, Seq<char>)> {
    Seq::new(params.len(), |i: int| (params[i].key, params[i].value))
}

/// What the tags of calls and parameters begin with, and where they differ.
pub proof fn lemma_tags()
    ensures
        lone_head("<parameter"@),
        lone_head("<invoke"@),
        lone_head(PARAM_CLOSE@),
        lone_head(INVOKE_CLOSE@),
        "<parameter"@[0] == '<',
        "<invoke"@[0] == '<',
        PARAM_CLOSE@[0] == '<',
        INVOKE_CLOSE@[0] == '<',
        "<parameter"@.len() > 2,
        "<invoke"@.len() > 2,
        PARAM_CLOSE@.len() > 2,
        INVOKE_CLOSE@.len() > 2,
        "<parameter"@[1] != "<invoke"@[1],
        PARAM_CLOSE@[1] != "<parameter"@[1],
        PARAM_CLOSE@[1] != "<invoke"@[1],
        INVOKE_CLOSE@[1] != "<invoke"@[1],
        PARAM_CLOSE@[2] != INVOKE_CLOSE@[2],
        forall|j: int| 0 <= j < "<invoke"@.len() ==> #[trigger] "<invoke"@[j] != '"',
{
    reveal_strlit("<parameter");
    reveal_strlit("<invoke");
    reveal_strlit("</parameter>");
    reveal_strlit("</invoke>");
}

/// A tag is the first in a text that does not have its beginning before.
pub proof fn lemma_named_open_tag(
    lead: Seq<char>,
    open: Seq<char>,
    name: Seq<char>,
    tail: Seq<char>,
)
    requires
        lone_head(open),
        !contains(lead, open),
        clear_name(name),
    ensures
        ({
            let s = lead + (tag(open, name) + tail);
            let k = lead.len() as int + tag(open, name).len();
            &&& named_open(s, open) == Some((name, k))
            &&& s.skip(k) == tail
            &&& first_occurrence(s, open) == Some(lead.len() as int)
        }),
{
    reveal_strlit(" name=\"");
    reveal_strlit("\">");
    reveal_strlit("name=\"");
    reveal_strlit("\"");
    reveal_strlit(">");
    let s = lead + (tag(open, name) + tail);
    let rest = " name=\""@ + (name + ("\">"@ + tail));
    assert(s =~= lead + (open + rest));
    lemma_first_behind(lead, open, rest);
    let i = lead.len() as int;
    lemma_first_occurrence(s, open);
    assert(s.skip(i + open.len()) =~= rest);
    let attributes = " name=\""@ + (name + "\""@);
    assert(rest =~= attributes + (">"@ + tail));
    assert forall|j: int| 0 <= j < attributes.len() implies #[trigger] attributes[j] != ">"@[0] by {
        if 7 <= j < 7 + name.len() {
            assert(attributes[j] == name[j - 7]);
        }
    }
    lemma_no_head(attributes, ">"@);
    lemma_first_behind(attributes, ">"@, tail);
    assert(rest.take(attributes.len() as int) =~= attributes);
    let quoted = name + "\""@;
    let space = seq![' '];
    assert(attributes =~= space + ("name=\""@ + quoted));
    lemma_no_head(space, "name=\""@);
    lemma_first_behind(space, "name=\""@, quoted);
    assert(attributes.skip(1 + "name=\""@.len() as int) =~= quoted);
    assert forall|j: int| 0 <= j < name.len() implies #[trigger] name[j] != "\""@[0] by {}
    lemma_no_head(name, "\""@);
    assert(quoted =~= name + ("\""@ + Seq::<char>::empty()));
    lemma_first_behind(name, "\""@, Seq::empty());
    assert(quoted.take(name.len() as int) =~= name);
    assert(name_attribute(attributes) == Some(name));
    assert(tag_rest(rest) == Some((name, attributes.len() as int + 1)));
    assert(is_first_named_open(s, open, i));
    lemma_named_open_is(s, open, i);
    assert(s.skip(i + tag(open, name).len()) =~= tail);
}

/// A text that does not have the beginning of a tag has no such tag.
pub proof fn lemma_no_named_open(s: Seq<char>, open: Seq<char>)
    requires
        !contains(s, open),
    ensures
        named_open(s, open) is None,
        before_sibling(s, open) == s,
{
    lemma_first_occurrence(s, open);
    lemma_named_open(s, open);
    if let Some(found) = named_open(s, open) {
        let i = choose|i: int|
            #[trigger] is_first_named_open(s, open, i) && named_open_at(s, open, i) == Some(found);
        assert(!occurs_at(s, open, i));
    }
}

/// What stands before a sibling.
proof fn lemma_sibling(region: Seq<char>, open: Seq<char>, name: Seq<char>, tail: Seq<char>)
    requires
        lone_head(open),
        !contains(region, open),
        clear_name(name),
    ensures
        before_sibling(region + (tag(open, name) + tail), open) == region,
{
    lemma_named_open_tag(region, open, name, tail);
    let s = region + (tag(open, name) + tail);
    assert(s.take(region.len() as int) =~= region);
}

/// The value of a parameter is read back, with the text before the next sibling.
pub proof fn lemma_value(value: Seq<char>, gap: Seq<char>, rest: Seq<char>)
    requires
        !contains(value, "<parameter"@),
        !contains(gap, "<parameter"@),
        !contains(gap, PARAM_CLOSE@),
        rest.len() == 0 || exists|key: Seq<char>, tail: Seq<char>|
            clear_name(key) && rest == #[trigger] (tag("<parameter"@, key) + tail),
    ensures
        parameter_value(value + (PARAM_CLOSE@ + (gap + rest))) == Some((value, gap + rest)),
{
    lemma_tags();
    let tail = PARAM_CLOSE@ + gap;
    let region = value + tail;
    let s = value + (PARAM_CLOSE@ + (gap + rest));
    assert(s =~= region + rest);
    assert(!contains(region, "<parameter"@)) by {
        lemma_contains_behind_tag(PARAM_CLOSE@, gap, "<parameter"@, 1);
        lemma_contains_concat(value, tail, "<parameter"@);
    }
    if rest.len() == 0 {
        assert(s =~= region);
        lemma_no_named_open(region, "<parameter"@);
    } else {
        let (key, more) = choose|key: Seq<char>, tail: Seq<char>|
            clear_name(key) && rest == #[trigger] (tag("<parameter"@, key) + tail);
        lemma_sibling(region, "<parameter"@, key, more);
    }
    lemma_pattern_then(PARAM_CLOSE@, gap);
    lemma_last_concat(value, tail, PARAM_CLOSE@);
    assert(region.take(value.len() as int) =~= value);
    assert(s.skip(value.len() as int + PARAM_CLOSE@.len()) =~= gap + rest);
}

/// What is written of parameters is nothing, or begins with a tag.
proof fn lemma_parameters_head(params: Seq<MinimaxParameter>)
    requires
        clear_parameters(params),
    ensures
        params.len() == 0 ==> written_parameters(params).len() == 0,
        params.len() > 0 ==> exists|key: Seq<char>, tail: Seq<char>|
            clear_name(key) && written_parameters(params) == #[trigger] (tag("<parameter"@, key)
                + tail),
        written_parameters(params).len() == 0 || written_parameters(params)[0] == '<',
{
    lemma_tags();
    if params.len() > 0 {
        assert(clear_parameter(params[0]));
        let tail = params[0].value + (PARAM_CLOSE@ + (params[0].gap + written_parameters(
            params.skip(1),
        )));
        assert(written_parameters(params) == tag("<parameter"@, params[0].key) + tail);
    }
}

/// Parameters are read back as they were written, names and values, in their order, and are
/// found closed. A closing tag that stands literally in a value is part of the value.
pub proof fn lemma_parameters_round_trip(lead: Seq<char>, params: Seq<MinimaxParameter>)
    requires
        !contains(lead, "<parameter"@),
        clear_parameters(params),
    ensures
        parameter_pairs(lead + written_parameters(params)) == pairs_of(params),
        fully_closed(lead + written_parameters(params)),
    decreases params.len(),
{
    lemma_tags();
    let s = lead + written_parameters(params);
    if params.len() == 0 {
        assert(s =~= lead);
        lemma_no_named_open(lead, "<parameter"@);
        assert(pairs_of(params) =~= seq![]);
    } else {
        let p = params[0];
        let more = params.skip(1);
        let rest = written_parameters(more);
        assert(clear_parameter(params[0]));
        assert(clear_parameters(more)) by {
            assert forall|i: int| 0 <= i < more.len() implies clear_parameter(
                #[trigger] more[i],
            ) by {
                assert(more[i] == params[i + 1]);
            }
        }
        let tail = p.value + (PARAM_CLOSE@ + (p.gap + rest));
        lemma_named_open_tag(lead, "<parameter"@, p.key, tail);
        lemma_parameters_head(more);
        lemma_value(p.value, p.gap, rest);
        lemma_parameters_round_trip(p.gap, more);
        assert(pairs_of(params) =~= seq![(p.key, p.value)] + pairs_of(more));
    }
}

/// A closing tag is accepted, if there is one that is not refused, and not behind it.
pub proof fn lemma_structural_close_some(
    s: Seq<char>,
    close: Seq<char>,
    ok: spec_fn(Seq<char>) -> bool,
    from: int,
    n: int,
)
    requires
        lone_head(close),
        0 <= from <= n,
        occurs_at(s, close, n),
        ok(s.take(n)),
    ensures
        structural_close(s, close, ok, from) matches Some(c) && c <= n,
    decreases n - from,
{
    lemma_first_in_rest(s, close, from);
    lemma_first_occurrence(s.skip(from), close);
    let i = first_occurrence(s.skip(from), close)->0;
    let j = from + i;
    if j < n && !ok(s.take(j)) {
        lemma_disjoint(s, close, j, n);
        lemma_structural_close_some(s, close, ok, j + close.len(), n);
    }
}

/// Two occurrences of a tag do not overlap.
pub proof fn lemma_disjoint(s: Seq<char>, close: Seq<char>, i: int, j: int)
    requires
        lone_head(close),
        occurs_at(s, close, i),
        occurs_at(s, close, j),
        i < j,
    ensures
        i + close.len() <= j,
{
    if j < i + close.len() {
        assert(s.subrange(i, i + close.len())[j - i] == s[j]);
        assert(s.subrange(j, j + close.len())[0] == s[j]);
    }
}

/// The pattern ends with the only `>` in it, which does not follow a quotation mark.
pub open spec fn ends_a_tag(pat: Seq<char>) -> bool {
    &&& pat.len() >= 2
    &&& pat.last() == '>'
    &&& pat[pat.len() - 2] != '"'
    &&& forall|j: int| 0 <= j < pat.len() - 1 ==> #[trigger] pat[j] != '>'
}

/// No closing tag begins in an opening tag.
pub proof fn lemma_none_in_tag(
    open: Seq<char>,
    name: Seq<char>,
    u: Seq<char>,
    pat: Seq<char>,
)
    requires
        clear_name(name),
        forall|j: int| 0 <= j < open.len() ==> #[trigger] open[j] != '>',
        ends_a_tag(pat),
    ensures
        forall|j: int|
            0 <= j < tag(open, name).len() ==> !#[trigger] occurs_at(tag(open, name) + u, pat, j),
        contains(tag(open, name) + u, pat) <==> contains(u, pat),
        forall|j: int|
            0 <= j ==> (#[trigger] occurs_at(u, pat, j) <==> occurs_at(
                tag(open, name) + u,
                pat,
                tag(open, name).len() + j,
            )),
{
    reveal_strlit(" name=\"");
    reveal_strlit("\">");
    let t = tag(open, name);
    let s = t + u;
    let last = t.len() - 1;
    assert(t[last] == '>' && t[last - 1] == '"');
    assert forall|i: int| 0 <= i < last implies #[trigger] t[i] != '>' by {
        let k = i - open.len() - 7;
        if i < open.len() {
            assert(t[i] == open[i]);
        } else if 0 <= k < name.len() {
            assert(t[i] == name[k]);
        }
    }
    assert forall|j: int| 0 <= j < t.len() implies !#[trigger] occurs_at(s, pat, j) by {
        if occurs_at(s, pat, j) {
            let found = s.subrange(j, j + pat.len());
            let end = j + pat.len() - 1;
            assert(found[pat.len() - 1] == s[end]);
            assert(found[pat.len() - 2] == s[end - 1]);
            if last < end {
                assert(found[last - j] == s[last]);
            }
        }
    }
    lemma_contains_behind(t, u, pat);
}

/// The closing tag of a call ends with its only `>`, and no opening tag begins with one.
pub proof fn lemma_close_ends_a_tag()
    ensures
        ends_a_tag(INVOKE_CLOSE@),
        forall|j: int| 0 <= j < "<parameter"@.len() ==> #[trigger] "<parameter"@[j] != '>',
        forall|j: int| 0 <= j < "<invoke"@.len() ==> #[trigger] "<invoke"@[j] != '>',
{
    reveal_strlit("</invoke>");
    reveal_strlit("<parameter");
    reveal_strlit("<invoke");
}

/// A call ends behind its parameters, in a text up to the next call.
pub proof fn lemma_last_close_is(head: Seq<char>, params: Seq<MinimaxParameter>, gap: Seq<char>)
    requires
        !contains(head, "<parameter"@),
        clear_parameters(params),
        !contains(gap, INVOKE_CLOSE@),
    ensures
        last_close(head + written_parameters(params) + (INVOKE_CLOSE@ + gap)) == Some(
            (head + written_parameters(params)).len() as int,
        ),
{
    lemma_tags();
    let body = head + written_parameters(params);
    let tail = INVOKE_CLOSE@ + gap;
    let s = body + tail;
    lemma_parameters_round_trip(head, params);
    assert(tail[0] == '<');
    lemma_pattern_then(INVOKE_CLOSE@, gap);
    lemma_last_concat(body, tail, INVOKE_CLOSE@);
    assert(s.take(body.len() as int) =~= body);
}

/// A call, by its name, the text before its parameters and its parameters, with the text that
/// follows it.
pub struct MinimaxCall {
    pub name: Seq<char>,
    pub head: Seq<char>,
    pub params: Seq<MinimaxParameter>,
    pub gap: Seq<char>,
}

/// What stands between the opening and the closing tag of a call.
pub open spec fn body_of(call: MinimaxCall) -> Seq<char> {
    call.head + written_parameters(call.params)
}

/// Some calls, as the format writes them.
pub open spec fn written_calls(calls: Seq<MinimaxCall>) -> Seq<char>
    decreases calls.len(),
{
    if calls.len() == 0 {
        seq![]
    } else {
        tag("<invoke"@, calls[0].name) + (body_of(calls[0]) + (INVOKE_CLOSE@ + (calls[0].gap
            + written_calls(calls.skip(1)))))
    }
}

/// `pat` stands nowhere in the call.
pub open spec fn call_free_of(call: MinimaxCall, pat: Seq<char>) -> bool {
    &&& !contains(call.head, pat)
    &&& !contains(call.gap, pat)
    &&& forall|i: int|
        0 <= i < call.params.len() ==> {
            &&& !contains((#[trigger] call.params[i]).key, pat)
            &&& !contains(call.params[i].value, pat)
            &&& !contains(call.params[i].gap, pat)
        }
}

/// The call can be told from its siblings. The values of its parameters may hold closing tags.
pub open spec fn clear_call(call: MinimaxCall) -> bool {
    &&& clear_name(call.name)
    &&& !contains(call.head, "<parameter"@)
    &&& clear_parameters(call.params)
    &&& !contains(call.gap, INVOKE_CLOSE@)
    &&& call_free_of(call, "<invoke"@)
}

/// The calls can be told from each other.
pub open spec fn clear_calls(calls: Seq<MinimaxCall>) -> bool {
    forall|i: int| 0 <= i < calls.len() ==> clear_call(#[trigger] calls[i])
}

/// The pattern is a tag that is not among those that parameters are written with.
pub open spec fn foreign(pat: Seq<char>) -> bool {
    &&& lone_head(pat)
    &&& pat[0] == '<'
    &&& pat.len() > 2
    &&& pat[1] != '/' || pat[2] != 'p'
    &&& ends_a_tag(pat) || pat == "<invoke"@
}

/// A foreign tag does not begin in the opening tag of a parameter.
proof fn lemma_behind_parameter_tag(key: Seq<char>, u: Seq<char>, pat: Seq<char>)
    requires
        foreign(pat),
        clear_name(key),
        !contains(key, pat),
    ensures
        contains(tag("<parameter"@, key) + u, pat) <==> contains(u, pat),
{
    lemma_tags();
    lemma_close_ends_a_tag();
    if ends_a_tag(pat) {
        lemma_none_in_tag("<parameter"@, key, u, pat);
    } else {
        reveal_strlit(" name=\"");
        reveal_strlit("\">");
        let open = "<parameter"@ + " name=\""@;
        let behind = "\">"@ + u;
        assert(lone_head(open)) by {
            reveal_strlit("<parameter");
        }
        assert(open[1] == "<parameter"@[1]);
        assert(tag("<parameter"@, key) + u =~= open + (key + behind));
        lemma_contains_behind_tag(open, key + behind, pat, 1);
        assert(behind[0] == '"');
        lemma_contains_concat(key, behind, pat);
        lemma_contains_behind_plain("\">"@, u, pat);
    }
}

/// A foreign tag does not stand in what is written of parameters that are free of it.
proof fn lemma_parameters_free(params: Seq<MinimaxParameter>, pat: Seq<char>)
    requires
        foreign(pat),
        clear_parameters(params),
        forall|i: int|
            0 <= i < params.len() ==> {
                &&& !contains((#[trigger] params[i]).key, pat)
                &&& !contains(params[i].value, pat)
                &&& !contains(params[i].gap, pat)
            },
    ensures
        !contains(written_parameters(params), pat),
    decreases params.len(),
{
    lemma_tags();
    reveal_strlit("</parameter>");
    if params.len() == 0 {
        lemma_no_head(seq![], pat);
    } else {
        let p = params[0];
        let more = params.skip(1);
        assert(clear_parameter(params[0]));
        assert(!contains(params[0].key, pat));
        assert forall|i: int| 0 <= i < more.len() implies clear_parameter(#[trigger] more[i]) by {
            assert(more[i] == params[i + 1]);
        }
        assert forall|i: int| 0 <= i < more.len() implies {
            &&& !contains((#[trigger] more[i]).key, pat)
            &&& !contains(more[i].value, pat)
            &&& !contains(more[i].gap, pat)
        } by {
            assert(more[i] == params[i + 1]);
        }
        lemma_parameters_free(more, pat);
        lemma_parameters_head(more);
        let rest = written_parameters(more);
        lemma_contains_concat(p.gap, rest, pat);
        let k = if pat[1] != '/' {
            1int
        } else {
            2
        };
        lemma_contains_behind_tag(PARAM_CLOSE@, p.gap + rest, pat, k);
        let behind = PARAM_CLOSE@ + (p.gap + rest);
        assert(behind[0] == '<');
        lemma_contains_concat(p.value, behind, pat);
        lemma_behind_parameter_tag(p.key, p.value + behind, pat);
    }
}

/// A foreign tag does not stand in the body of a call that is free of it.
proof fn lemma_body_free(call: MinimaxCall, pat: Seq<char>)
    requires
        foreign(pat),
        clear_parameters(call.params),
        call_free_of(call, pat),
    ensures
        !contains(body_of(call), pat),
{
    lemma_parameters_free(call.params, pat);
    lemma_parameters_head(call.params);
    lemma_contains_concat(call.head, written_parameters(call.params), pat);
}

proof fn lemma_invoke_is_foreign()
    ensures
        foreign("<invoke"@),
{
    lemma_tags();
    reveal_strlit("<invoke");
}

/// The calls of a group are read back as they were written, each with its name and the markup
/// of its parameters. A closing tag that stands literally in a value, that of a parameter or of a
/// call, does not end the call.
#[verifier::rlimit(30)]
pub proof fn lemma_calls_round_trip(lead: Seq<char>, calls: Seq<MinimaxCall>, tail: Seq<char>)
    requires
        !contains(lead, "<invoke"@),
        clear_calls(calls),
        !contains(tail, "<invoke"@),
        !contains(tail, INVOKE_CLOSE@),
        tail.len() > 0 ==> tail[0] == '<',
    ensures
        invoke_blocks(lead + (written_calls(calls) + tail)) == Seq::new(
            calls.len(),
            |i: int| (calls[i].name, body_of(calls[i])),
        ),
    decreases calls.len(),
{
    lemma_tags();
    lemma_invoke_is_foreign();
    let s = lead + (written_calls(calls) + tail);
    let expected = Seq::new(calls.len(), |i: int| (calls[i].name, body_of(calls[i])));
    if calls.len() == 0 {
        assert(s =~= lead + tail);
        lemma_contains_concat(lead, tail, "<invoke"@);
        lemma_no_named_open(s, "<invoke"@);
        assert(expected =~= seq![]);
    } else {
        let call = calls[0];
        let more = calls.skip(1);
        assert(clear_call(calls[0]));
        assert forall|i: int| 0 <= i < more.len() implies clear_call(#[trigger] more[i]) by {
            assert(more[i] == calls[i + 1]);
        }
        let body = body_of(call);
        let rest = written_calls(more) + tail;
        let after = body + (INVOKE_CLOSE@ + (call.gap + rest));
        assert(s =~= lead + (tag("<invoke"@, call.name) + after));
        lemma_named_open_tag(lead, "<invoke"@, call.name, after);
        lemma_body_free(call, "<invoke"@);
        let close = INVOKE_CLOSE@ + call.gap;
        let region = body + close;
        assert(close[0] == '<');
        lemma_contains_behind_tag(INVOKE_CLOSE@, call.gap, "<invoke"@, 1);
        lemma_contains_concat(body, close, "<invoke"@);
        assert(after =~= region + rest);
        lemma_calls_round_trip(call.gap, more, tail);
        let part = before_sibling(after, "<invoke"@);
        if more.len() == 0 {
            assert(rest =~= tail);
            lemma_contains_concat(region, tail, "<invoke"@);
            lemma_no_named_open(after, "<invoke"@);
            assert(part =~= body + (INVOKE_CLOSE@ + (call.gap + tail)));
            lemma_contains_concat(call.gap, tail, INVOKE_CLOSE@);
            lemma_last_close_is(call.head, call.params, call.gap + tail);
        } else {
            let next = body_of(more[0]) + (INVOKE_CLOSE@ + (more[0].gap + written_calls(
                more.skip(1),
            )));
            assert(clear_call(more[0]));
            assert(rest =~= tag("<invoke"@, more[0].name) + (next + tail));
            lemma_sibling(region, "<invoke"@, more[0].name, next + tail);
            lemma_last_close_is(call.head, call.params, call.gap);
        }
        assert(part.take(body.len() as int) =~= body);
        assert(after.skip(body.len() as int + INVOKE_CLOSE@.len()) =~= call.gap + rest);
        assert(expected =~= seq![(call.name, body)] + Seq::new(
            more.len(),
            |i: int| (more[i].name, body_of(more[i])),
        ));
    }
}

/// A group, by the text before its calls and its calls.
pub struct MinimaxGroup {
    pub head: Seq<char>,
    pub calls: Seq<MinimaxCall>,
}

/// What stands between the opening and the closing tag of a group.
pub open spec fn inner_of(group: MinimaxGroup) -> Seq<char> {
    group.head + written_calls(group.calls)
}

/// The insides of some groups, each with the text that follows the group.
pub open spec fn insides(items: Seq<(MinimaxGroup, Seq<char>)>) -> Seq<(Seq<char>, Seq<char>)> {
    Seq::new(items.len(), |i: int| (inner_of(items[i].0), items[i].1))
}

/// Some groups, each with the text that follows it.
pub open spec fn written_groups(items: Seq<(MinimaxGroup, Seq<char>)>) -> Seq<char> {
    written_blocks(insides(items), TOOL_CALL_OPEN@, TOOL_CALL_CLOSE@)
}

/// The group holds a call, and can be told from the other groups and from its calls.
pub open spec fn clear_group(group: MinimaxGroup) -> bool {
    &&& group.calls.len() > 0
    &&& clear_calls(group.calls)
    &&& !contains(group.head, "<invoke"@)
    &&& !contains(group.head, TOOL_CALL_OPEN@)
    &&& forall|i: int|
        0 <= i < group.calls.len() ==> call_free_of(#[trigger] group.calls[i], TOOL_CALL_OPEN@)
}

/// The groups can be told from each other and from the text between them.
pub open spec fn clear_groups(items: Seq<(MinimaxGroup, Seq<char>)>) -> bool {
    forall|i: int|
        0 <= i < items.len() ==> {
            &&& clear_group((#[trigger] items[i]).0)
            &&& !contains(items[i].1, TOOL_CALL_OPEN@)
            &&& !contains(items[i].1, TOOL_CALL_CLOSE@)
        }
}

/// The call as it is given to the caller: each value with its XML entities decoded, by its
/// schema type or else by what it looks like.
pub open spec fn call_model(call: MinimaxCall, tools: Seq<Tool>) -> CallModel {
    CallModel {
        name: call.name,
        arguments: json_text(
            JsonModel::Object(
                members_of(arguments_of(pairs_of(call.params), properties_of(tools, call.name))),
            ),
        ),
    }
}

/// The calls of a group as they are given to the caller.
pub open spec fn group_models(group: MinimaxGroup, tools: Seq<Tool>) -> Seq<CallModel> {
    Seq::new(group.calls.len(), |i: int| call_model(group.calls[i], tools))
}

/// The calls of some groups as they are given to the caller, one group after the other.
pub open spec fn groups_models(items: Seq<(MinimaxGroup, Seq<char>)>, tools: Seq<Tool>) -> Seq<
    CallModel,
>
    decreases items.len(),
{
    if items.len() == 0 {
        seq![]
    } else {
        groups_models(items.drop_last(), tools) + group_models(items.last().0, tools)
    }
}

/// What the tags of groups begin with, and where they differ from others.
proof fn lemma_group_tags()
    ensures
        clear_tokens(TOOL_CALL_OPEN@, TOOL_CALL_CLOSE@),
        foreign(TOOL_CALL_OPEN@),
        TOOL_CALL_OPEN@[1] != "<invoke"@[1],
        TOOL_CALL_CLOSE@[1] != "<invoke"@[1],
        TOOL_CALL_CLOSE@[0] == '<',
        TOOL_CALL_CLOSE@.len() > 2,
        TOOL_CALL_CLOSE@[2] != INVOKE_CLOSE@[2],
        lone_head(TOOL_CALL_CLOSE@),
        foreign(TOOL_CALL_CLOSE@),
        INVOKE_CLOSE@[1] != TOOL_CALL_OPEN@[1],
{
    reveal_strlit("<minimax:tool_call>");
    reveal_strlit("</minimax:tool_call>");
    reveal_strlit("<invoke");
    reveal_strlit("</invoke>");
}

/// What is written of calls is nothing, or begins with a tag.
proof fn lemma_calls_head(calls: Seq<MinimaxCall>)
    ensures
        written_calls(calls).len() == 0 || written_calls(calls)[0] == '<',
{
    lemma_tags();
}

/// The opening tag of a group does not stand in what is written of calls that are free of it.
proof fn lemma_calls_free(calls: Seq<MinimaxCall>)
    requires
        clear_calls(calls),
        forall|i: int|
            0 <= i < calls.len() ==> call_free_of(#[trigger] calls[i], TOOL_CALL_OPEN@),
    ensures
        !contains(written_calls(calls), TOOL_CALL_OPEN@),
    decreases calls.len(),
{
    lemma_tags();
    lemma_close_ends_a_tag();
    lemma_group_tags();
    let pat = TOOL_CALL_OPEN@;
    if calls.len() == 0 {
        lemma_no_head(seq![], pat);
    } else {
        let call = calls[0];
        let more = calls.skip(1);
        assert(clear_call(calls[0]));
        assert(call_free_of(calls[0], pat));
        assert forall|i: int| 0 <= i < more.len() implies clear_call(#[trigger] more[i]) by {
            assert(more[i] == calls[i + 1]);
        }
        assert forall|i: int| 0 <= i < more.len() implies call_free_of(#[trigger] more[i], pat) by {
            assert(more[i] == calls[i + 1]);
        }
        lemma_calls_free(more);
        lemma_calls_head(more);
        lemma_body_free(call, pat);
        let rest = written_calls(more);
        lemma_contains_concat(call.gap, rest, pat);
        lemma_contains_behind_tag(INVOKE_CLOSE@, call.gap + rest, pat, 1);
        let behind = INVOKE_CLOSE@ + (call.gap + rest);
        assert(behind[0] == '<');
        lemma_contains_concat(body_of(call), behind, pat);
        assert(ends_a_tag(pat)) by {
            reveal_strlit("<minimax:tool_call>");
        }
        lemma_none_in_tag("<invoke"@, call.name, body_of(call) + behind, pat);
    }
}

/// The calls of a group are read back from its block.
proof fn lemma_group_round_trip(group: MinimaxGroup, tools: Seq<Tool>)
    requires
        clear_group(group),
    ensures
        block_calls(TOOL_CALL_OPEN@ + (inner_of(group) + TOOL_CALL_CLOSE@), tools) == group_models(
            group,
            tools,
        ),
        invoke_blocks(TOOL_CALL_OPEN@ + (inner_of(group) + TOOL_CALL_CLOSE@)).len() > 0,
{
    lemma_tags();
    lemma_group_tags();
    let block = TOOL_CALL_OPEN@ + (inner_of(group) + TOOL_CALL_CLOSE@);
    let lead = TOOL_CALL_OPEN@ + group.head;
    let none = Seq::<char>::empty();
    lemma_contains_behind_tag(TOOL_CALL_OPEN@, group.head, "<invoke"@, 1);
    assert(TOOL_CALL_CLOSE@ + none =~= TOOL_CALL_CLOSE@);
    assert(!contains(none, "<invoke"@));
    lemma_contains_behind_tag(TOOL_CALL_CLOSE@, none, "<invoke"@, 1);
    assert(!contains(none, INVOKE_CLOSE@));
    lemma_contains_behind_tag(TOOL_CALL_CLOSE@, none, INVOKE_CLOSE@, 2);
    lemma_calls_round_trip(lead, group.calls, TOOL_CALL_CLOSE@);
    assert(block =~= lead + (written_calls(group.calls) + TOOL_CALL_CLOSE@));
    assert forall|i: int| 0 <= i < group.calls.len() implies #[trigger] block_calls(
        block,
        tools,
    )[i] == call_model(group.calls[i], tools) by {
        let call = group.calls[i];
        assert(clear_call(group.calls[i]));
        lemma_parameters_round_trip(call.head, call.params);
    }
    assert(block_calls(block, tools) =~= group_models(group, tools));
}

/// The calls of some groups are read back from their blocks.
proof fn lemma_groups_calls(items: Seq<(MinimaxGroup, Seq<char>)>, tools: Seq<Tool>)
    requires
        clear_groups(items),
    ensures
        groups_calls(
            Seq::new(
                items.len(),
                |i: int| TOOL_CALL_OPEN@ + (inner_of(items[i].0) + TOOL_CALL_CLOSE@),
            ),
            tools,
        ) == groups_models(items, tools),
    decreases items.len(),
{
    let texts = Seq::new(
        items.len(),
        |i: int| TOOL_CALL_OPEN@ + (inner_of(items[i].0) + TOOL_CALL_CLOSE@),
    );
    if items.len() > 0 {
        let before = items.drop_last();
        assert forall|i: int| 0 <= i < before.len() implies {
            &&& clear_group((#[trigger] before[i]).0)
            &&& !contains(before[i].1, TOOL_CALL_OPEN@)
            &&& !contains(before[i].1, TOOL_CALL_CLOSE@)
        } by {
            assert(before[i] == items[i]);
        }
        lemma_groups_calls(before, tools);
        assert(texts.drop_last() =~= Seq::new(
            before.len(),
            |i: int| TOOL_CALL_OPEN@ + (inner_of(before[i].0) + TOOL_CALL_CLOSE@),
        ));
        assert(clear_group(items[items.len() - 1].0));
        lemma_group_round_trip(items.last().0, tools);
    }
}

/// A text with groups of calls is read back as it was written: the text before the first group,
/// and the calls in their order. What stands between the groups is passed over.
pub proof fn lemma_round_trip(
    lead: Seq<char>,
    items: Seq<(MinimaxGroup, Seq<char>)>,
    tools: Seq<Tool>,
)
    requires
        !contains(lead, TOOL_CALL_OPEN@),
        clear_groups(items),
    ensures
        complete(lead + written_groups(items), tools) == (lead, groups_models(items, tools)),
{
    lemma_tags();
    lemma_group_tags();
    let text = lead + written_groups(items);
    let inside = insides(items);
    assert forall|i: int| 0 <= i < inside.len() implies {
        &&& !contains((#[trigger] inside[i]).0, TOOL_CALL_OPEN@)
        &&& !contains(inside[i].1, TOOL_CALL_OPEN@)
        &&& !contains(inside[i].1, TOOL_CALL_CLOSE@)
    } by {
        let group = items[i].0;
        assert(clear_group(items[i].0));
        lemma_calls_free(group.calls);
        lemma_calls_head(group.calls);
        lemma_contains_concat(group.head, written_calls(group.calls), TOOL_CALL_OPEN@);
    }
    lemma_blocks_written(lead, inside, TOOL_CALL_OPEN@, TOOL_CALL_CLOSE@);
    assert(groups(text) =~= Seq::new(
        items.len(),
        |i: int| TOOL_CALL_OPEN@ + (inner_of(items[i].0) + TOOL_CALL_CLOSE@),
    ));
    lemma_groups_calls(items, tools);
    if items.len() > 0 {
        assert(clear_group(items[0].0));
        lemma_group_round_trip(items[0].0, tools);
        assert(text.take(lead.len() as int) =~= lead);
    } else {
        assert(text =~= lead);
    }
}

/// A text without the opening tag of a group is given back as it is, without calls.
pub proof fn lemma_no_marker(text: Seq<char>, tools: Seq<Tool>)
    requires
        !contains(text, TOOL_CALL_OPEN@),
    ensures
        complete(text, tools) == (text, Seq::<CallModel>::empty()),
{
    assert(text.skip(0) =~= text);
    lemma_first_occurrence(text, TOOL_CALL_OPEN@);
}

/// What can follow a call and the text behind it: nothing, the end of the group, or the next
/// call.
pub open spec fn follows(more: Seq<char>) -> bool {
    ||| more.len() == 0
    ||| exists|t: Seq<char>| more == #[trigger] (TOOL_CALL_CLOSE@ + t)
    ||| exists|name: Seq<char>, t: Seq<char>|
        clear_name(name) && more == #[trigger] (tag("<invoke"@, name) + t)
}

/// What stands before the end of the group or the next call.
pub proof fn lemma_before_next_is(s: Seq<char>, more: Seq<char>)
    requires
        !contains(s, "<invoke"@),
        !contains(s, TOOL_CALL_CLOSE@),
        follows(more),
    ensures
        before_next(s + more) == s,
{
    lemma_tags();
    lemma_close_ends_a_tag();
    lemma_group_tags();
    let text = s + more;
    lemma_no_named_open(s, "<invoke"@);
    lemma_first_occurrence(s, TOOL_CALL_CLOSE@);
    if more.len() == 0 {
        assert(text =~= s);
    } else if exists|t: Seq<char>| more == #[trigger] (TOOL_CALL_CLOSE@ + t) {
        let t = choose|t: Seq<char>| more == #[trigger] (TOOL_CALL_CLOSE@ + t);
        lemma_first_behind(s, TOOL_CALL_CLOSE@, t);
        assert(text.take(s.len() as int) =~= s);
    } else {
        let (name, t) = choose|name: Seq<char>, t: Seq<char>|
            clear_name(name) && more == #[trigger] (tag("<invoke"@, name) + t);
        let open = tag("<invoke"@, name);
        assert(ends_a_tag(TOOL_CALL_CLOSE@)) by {
            reveal_strlit("</minimax:tool_call>");
        }
        lemma_none_in_tag("<invoke"@, name, t, TOOL_CALL_CLOSE@);
        assert(more[0] == '<');
        lemma_first_concat(s, more, TOOL_CALL_CLOSE@);
        lemma_first_occurrence(more, TOOL_CALL_CLOSE@);
        match first_occurrence(more, TOOL_CALL_CLOSE@) {
            Some(i) => {
                let part = t.take(i - open.len());
                assert(text.take(s.len() + i) =~= s + (open + part));
                lemma_sibling(s, "<invoke"@, name, part);
            },
            None => {
                lemma_sibling(s, "<invoke"@, name, t);
            },
        }
    }
}

/// In a stream, a call ends behind its parameters, whatever closing tags stand in their values.
pub proof fn lemma_call_end_is(call: MinimaxCall, more: Seq<char>)
    requires
        clear_call(call),
        call_free_of(call, TOOL_CALL_CLOSE@),
        follows(more),
    ensures
        call_end(body_of(call) + (INVOKE_CLOSE@ + (call.gap + more))) == Some(
            body_of(call).len() as int,
        ),
{
    lemma_tags();
    lemma_group_tags();
    lemma_invoke_is_foreign();
    let close = INVOKE_CLOSE@;
    let body = body_of(call);
    let n = body.len() as int;
    let tail = close + call.gap;
    let full = body + tail;
    let s = body + (close + (call.gap + more));
    assert(s =~= full + more);
    let ok = |t: Seq<char>| fully_closed(t);
    lemma_parameters_round_trip(call.head, call.params);
    assert(s.take(n) =~= body);
    assert(s.subrange(n, n + close.len()) =~= close);
    lemma_structural_close_some(s, close, ok, 0, n);
    lemma_structural_close_bounds(s, close, ok, 0);
    let c = invoke_end(s)->0;
    if c < n {
        lemma_disjoint(s, close, c, n);
    }
    let from = c + close.len();
    assert(tail[0] == '<');
    lemma_body_free(call, "<invoke"@);
    lemma_body_free(call, TOOL_CALL_CLOSE@);
    lemma_contains_behind_tag(close, call.gap, "<invoke"@, 1);
    lemma_contains_behind_tag(close, call.gap, TOOL_CALL_CLOSE@, 2);
    lemma_contains_concat(body, tail, "<invoke"@);
    lemma_contains_concat(body, tail, TOOL_CALL_CLOSE@);
    lemma_skip_free(full, "<invoke"@, from);
    lemma_skip_free(full, TOOL_CALL_CLOSE@, from);
    assert(s.skip(from) =~= full.skip(from) + more);
    lemma_before_next_is(full.skip(from), more);
    assert(s.take(from + full.skip(from).len()) =~= full);
    lemma_last_close_is(call.head, call.params, call.gap);
}

} // verus!
