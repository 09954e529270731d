//! A call of DeepSeek V3.1 is streamed as it was written, however it was cut into chunks.
use super::outside::{first_outside, lemma_first_outside};
use super::pattern::partial_call;
use super::round_trip::lemma_partial_call;
use super::stream::{
    clean_arguments, feed, initial, lemma_trimmed_end, strip_once, strip_token, stripped,
    without_end_tokens, DeepSeekState,
};
use super::streaming::{
    current_index, lemma_arguments_sent, lemma_feed, lemma_prepared, valid,
};
use super::{
    call_end, EOS_TOKEN, TOOL_CALLS_BEGIN, TOOL_CALLS_END, TOOL_CALL_BEGIN, TOOL_CALL_END,
    TOOL_SEP,
};
use crate::json::parsed_json;
use crate::parsers::helpers::{
    joined, known_tool, lemma_sent_by_concat, lemma_sent_by_one, only_arguments, sent_before,
    sent_by,
};
use crate::text::concat::{
    lemma_contains_behind_tag, lemma_contains_concat, lemma_first_behind, lemma_occurs_concat,
    lemma_pattern_then, lemma_take_free, lemma_trimmed, lone_head,
};
use crate::text::edit::{
    replaced, trimmed, trimmed_end, trimmed_end_of, trimmed_start, whitespace, without_prefix,
};
use crate::text::search::{
    contains, first_occurrence, lemma_first_occurrence, lemma_last_occurrence, occurs_at,
};
use crate::types::{name_item, ResultModel, Tool};
use vstd::prelude::*;

verus! {

/// The state after some chunks, and what was sent for them: the normal text, and the items.
pub open spec fn feed_all(st: DeepSeekState, chunks: Seq<Seq<char>>, tools: Seq<Tool>) -> (
    DeepSeekState,
    ResultModel,
)
    decreases chunks.len(),
{
    if chunks.len() == 0 {
        (st, ResultModel { normal_text: seq![], calls: seq![] })
    } else {
        let (next, first) = feed(st, chunks[0], tools);
        let (end, more) = feed_all(next, chunks.skip(1), tools);
        (
            end,
            ResultModel {
                normal_text: first.normal_text + more.normal_text,
                calls: first.calls + more.calls,
            },
        )
    }
}

/// The tokens that follow the arguments of the last call.
pub open spec fn end_tokens() -> Seq<char> {
    TOOL_CALL_END@ + TOOL_CALLS_END@
}

/// What stands before the arguments of the first call.
pub open spec fn beginning(name: Seq<char>) -> Seq<char> {
    TOOL_CALLS_BEGIN@ + (TOOL_CALL_BEGIN@ + (name + TOOL_SEP@))
}

/// None of the tokens stands in the text.
pub open spec fn free_of_tokens(s: Seq<char>) -> bool {
    &&& !contains(s, TOOL_SEP@)
    &&& !contains(s, TOOL_CALL_END@)
    &&& !contains(s, TOOL_CALLS_END@)
    &&& !contains(s, EOS_TOKEN@)
}

/// The text is a JSON text, no beginning of it is one, and it can be told from what stands round
/// it.
pub open spec fn clear_arguments(json: Seq<char>) -> bool {
    &&& json.len() > 0
    &&& !whitespace(json[0])
    &&& !whitespace(json.last())
    &&& free_of_tokens(json)
    &&& parsed_json(json) is Ok
    &&& forall|n: int| 0 <= n < json.len() ==> parsed_json(#[trigger] json.take(n)) is Err
}

/// A chunk may end here: the first `n` characters of the arguments and the tokens behind them end
/// in the arguments, or behind a token.
pub open spec fn may_end(json: Seq<char>, n: int) -> bool {
    ||| n <= json.len()
    ||| n == json.len() + TOOL_CALL_END@.len()
    ||| n == json.len() + end_tokens().len()
}

/// No chunk ends within a token, if the first begins behind `done` characters.
pub open spec fn uncut(json: Seq<char>, done: int, chunks: Seq<Seq<char>>) -> bool
    decreases chunks.len(),
{
    chunks.len() > 0 ==> {
        &&& may_end(json, done + chunks[0].len())
        &&& uncut(json, done + chunks[0].len(), chunks.skip(1))
    }
}

/// None of the chunks ends within the token that opens the calls, and the last of them, and no
/// other, ends behind the separator.
pub open spec fn uncut_beginning(name: Seq<char>, done: int, chunks: Seq<Seq<char>>) -> bool
    decreases chunks.len(),
{
    if chunks.len() == 0 {
        done == beginning(name).len()
    } else {
        let n = done + chunks[0].len();
        &&& done < beginning(name).len()
        &&& n == 0 || TOOL_CALLS_BEGIN@.len() <= n
        &&& uncut_beginning(name, n, chunks.skip(1))
    }
}

proof fn lemma_token_facts()
    ensures
        lone_head(TOOL_CALLS_BEGIN@),
        lone_head(TOOL_CALL_BEGIN@),
        lone_head(TOOL_SEP@),
        lone_head(TOOL_CALL_END@),
        lone_head(TOOL_CALLS_END@),
        lone_head(EOS_TOKEN@),
        TOOL_CALLS_BEGIN@[0] == '<',
        TOOL_CALL_BEGIN@[0] == '<',
        TOOL_SEP@[0] == '<',
        TOOL_CALL_END@[0] == '<',
        TOOL_CALLS_END@[0] == '<',
        EOS_TOKEN@[0] == '<',
        TOOL_CALL_END@.last() == '>',
        TOOL_CALLS_END@.last() == '>',
        TOOL_CALL_END@.len() == 17,
        TOOL_CALLS_END@.len() == 18,
        EOS_TOKEN@.len() == 19,
        TOOL_CALLS_BEGIN@.len() == 20,
        TOOL_CALL_BEGIN@.len() == 19,
        TOOL_SEP@.len() == 12,
        TOOL_CALLS_BEGIN@[11] != TOOL_CALL_BEGIN@[11],
        TOOL_CALLS_BEGIN@[7] != TOOL_SEP@[7],
        TOOL_CALL_BEGIN@[7] != TOOL_SEP@[7],
        TOOL_CALL_END@[7] != TOOL_SEP@[7],
        TOOL_CALLS_END@[7] != TOOL_SEP@[7],
        TOOL_CALL_END@[12] != TOOL_CALL_BEGIN@[12],
        TOOL_CALLS_END@[11] != TOOL_CALL_BEGIN@[11],
        TOOL_CALL_END@[11] != TOOL_CALLS_BEGIN@[11],
        TOOL_CALLS_END@[13] != TOOL_CALLS_BEGIN@[13],
        TOOL_CALLS_END@[11] != TOOL_CALL_END@[11],
{
    reveal_strlit("<｜tool▁calls▁begin｜>");
    reveal_strlit("<｜tool▁call▁begin｜>");
    reveal_strlit("<｜tool▁sep｜>");
    reveal_strlit("<｜tool▁call▁end｜>");
    reveal_strlit("<｜tool▁calls▁end｜>");
    reveal_strlit("<｜end▁of▁sentence｜>");
}

/// A token does not stand in a text of tokens that are others.
proof fn lemma_other_token(tag: Seq<char>, pat: Seq<char>, k: int)
    requires
        lone_head(tag),
        1 <= k < tag.len(),
        k < pat.len(),
        tag[0] == pat[0],
        tag[k] != pat[k],
    ensures
        !contains(tag, pat),
{
    let none = Seq::<char>::empty();
    assert(tag + none =~= tag);
    assert(!contains(none, pat));
    lemma_contains_behind_tag(tag, none, pat, k);
}

proof fn lemma_trimmed_end_fixed(s: Seq<char>)
    ensures
        trimmed_end(trimmed_end(s)) == trimmed_end(s),
    decreases s.len(),
{
    if s.len() > 0 && whitespace(s.last()) {
        lemma_trimmed_end_fixed(s.drop_last());
    }
}

proof fn lemma_trimmed_end_grows(s: Seq<char>, n: int)
    requires
        0 <= n <= s.len(),
    ensures
        trimmed_end(s.take(n)).len() <= trimmed_end(s).len(),
    decreases s.len(),
{
    lemma_trimmed_end(s.take(n));
    if n == s.len() {
        assert(s.take(n) =~= s);
    } else if whitespace(s.last()) {
        assert(s.drop_last().take(n) =~= s.take(n));
        lemma_trimmed_end_grows(s.drop_last(), n);
    }
}

/// Nothing is taken off the end of a text without tokens that does not end with white space.
proof fn lemma_stripped_plain(s: Seq<char>)
    requires
        free_of_tokens(s),
        trimmed_end(s) == s,
    ensures
        stripped(s) == s,
        strip_token(s, EOS_TOKEN@) == s,
        strip_token(s, TOOL_CALLS_END@) == s,
        strip_token(s, TOOL_CALL_END@) == s,
{
    assert(!occurs_at(s, EOS_TOKEN@, s.len() - EOS_TOKEN@.len()));
    assert(!occurs_at(s, TOOL_CALLS_END@, s.len() - TOOL_CALLS_END@.len()));
    assert(!occurs_at(s, TOOL_CALL_END@, s.len() - TOOL_CALL_END@.len()));
}

/// The arguments in a beginning of the JSON text: all of it but the white space at its end.
proof fn lemma_clean_part(json: Seq<char>, n: int)
    requires
        clear_arguments(json),
        0 <= n < json.len(),
    ensures
        ({
            let p = json.take(n);
            let q = trimmed_end(p);
            &&& clean_arguments(trimmed(p)) == q
            &&& q.len() <= n
            &&& q == json.take(q.len() as int)
            &&& !contains(p, TOOL_SEP@)
        }),
{
    let p = json.take(n);
    let q = trimmed_end(p);
    assert(trimmed_start(p) == p);
    lemma_trimmed_end(p);
    lemma_trimmed_end_fixed(p);
    let m = q.len() as int;
    assert(p.take(m) =~= json.take(m));
    lemma_take_free(json, TOOL_SEP@, n);
    lemma_take_free(json, TOOL_SEP@, m);
    lemma_take_free(json, TOOL_CALL_END@, m);
    lemma_take_free(json, TOOL_CALLS_END@, m);
    lemma_take_free(json, EOS_TOKEN@, m);
    lemma_stripped_plain(q);
}

/// A token does not stand at the end of a text that ends with a shorter one.
proof fn lemma_not_at_end(a: Seq<char>, shorter: Seq<char>, token: Seq<char>)
    requires
        lone_head(token),
        shorter.len() > 0,
        shorter[0] == token[0],
        shorter.len() < token.len(),
    ensures
        trimmed_end_of(a + shorter, token) == a + shorter,
{
    let s = a + shorter;
    let j = s.len() - token.len();
    if occurs_at(s, token, j) {
        let k = token.len() - shorter.len();
        assert(s.subrange(j, j + token.len())[k] == s[a.len() as int]);
        assert(token[k] != token[0]);
    }
}

/// A token at the end of a text is taken off.
proof fn lemma_at_end(a: Seq<char>, token: Seq<char>)
    requires
        token.len() > 0,
    ensures
        trimmed_end_of(a + token, token) == trimmed_end_of(a, token),
{
    let s = a + token;
    assert(s.subrange(a.len() as int, s.len() as int) =~= token);
    assert(s.take(a.len() as int) =~= a);
}

/// The tokens that may have come behind the arguments.
pub open spec fn some_end_tokens(m: Seq<char>) -> bool {
    m.len() == 0 || m == TOOL_CALL_END@ || m == end_tokens()
}

/// The arguments in the JSON text with tokens behind it: the JSON text.
proof fn lemma_clean_full(json: Seq<char>, m: Seq<char>)
    requires
        clear_arguments(json),
        some_end_tokens(m),
    ensures
        clean_arguments(trimmed(json + m)) == json,
        !contains(json + m, TOOL_SEP@),
{
    lemma_token_facts();
    let p = json + m;
    assert(p[0] == json[0]);
    assert(p.last() == json.last() || p.last() == '>');
    lemma_trimmed(p);
    lemma_trimmed(json);
    lemma_stripped_plain(json);
    let one = json + TOOL_CALL_END@;
    assert(one.last() == '>');
    lemma_trimmed(one);
    lemma_not_at_end(json, TOOL_CALL_END@, EOS_TOKEN@);
    lemma_not_at_end(json, TOOL_CALL_END@, TOOL_CALLS_END@);
    lemma_at_end(json, TOOL_CALL_END@);
    assert(strip_once(one) == json);
    lemma_other_token(TOOL_CALL_END@, TOOL_SEP@, 7);
    lemma_other_token(TOOL_CALLS_END@, TOOL_SEP@, 7);
    lemma_contains_concat(TOOL_CALL_END@, TOOL_CALLS_END@, TOOL_SEP@);
    if m.len() == 0 {
        assert(p =~= json);
    } else {
        assert(m[0] == '<');
        lemma_contains_concat(json, m, TOOL_SEP@);
        if m == end_tokens() && m != TOOL_CALL_END@ {
            assert(p =~= one + TOOL_CALLS_END@);
            lemma_not_at_end(one, TOOL_CALLS_END@, EOS_TOKEN@);
            lemma_at_end(one, TOOL_CALLS_END@);
            assert(strip_once(p) == json);
        }
        assert(stripped(p) == stripped(json));
    }
}

/// What is in the buffer while the arguments of the first call come in.
pub open spec fn buffered(lead: Seq<char>, name: Seq<char>, arguments: Seq<char>) -> Seq<char> {
    lead + (TOOL_CALL_BEGIN@ + (name + (TOOL_SEP@ + arguments)))
}

/// The text is that of a call of a known tool.
pub open spec fn clear_name(lead: Seq<char>, name: Seq<char>, tools: Seq<Tool>) -> bool {
    &&& !contains(lead, TOOL_CALL_BEGIN@)
    &&& trimmed(name) == name
    &&& !contains(name, TOOL_SEP@)
    &&& known_tool(tools, name)
}

/// The first `n` characters of the arguments have come, and were sent but for the white space at
/// their end.
pub open spec fn sent_up_to(
    st: DeepSeekState,
    lead: Seq<char>,
    name: Seq<char>,
    json: Seq<char>,
    n: int,
) -> bool {
    &&& valid(st)
    &&& st.name_sent
    &&& 0 <= n < json.len()
    &&& st.buffer == buffered(lead, name, json.take(n))
    &&& sent_before(st.streamed, current_index(st)) == trimmed_end(json.take(n))
}

proof fn lemma_buffered_more(
    lead: Seq<char>,
    name: Seq<char>,
    arguments: Seq<char>,
    chunk: Seq<char>,
)
    ensures
        buffered(lead, name, arguments) + chunk == buffered(lead, name, arguments + chunk),
{
    assert(buffered(lead, name, arguments) + chunk =~= buffered(lead, name, arguments + chunk));
}

/// What was sent is a beginning of what has come.
proof fn lemma_continues(json: Seq<char>, n: int, arguments: Seq<char>)
    requires
        clear_arguments(json),
        0 <= n < json.len(),
        arguments == json || exists|m: int|
            n <= m < json.len() && arguments == trimmed_end(#[trigger] json.take(m)),
    ensures
        without_prefix(arguments, trimmed_end(json.take(n))) is Some,
{
    let q = trimmed_end(json.take(n));
    lemma_clean_part(json, n);
    if arguments != json {
        let m = choose|m: int|
            n <= m < json.len() && arguments == trimmed_end(#[trigger] json.take(m));
        lemma_clean_part(json, m);
        assert(json.take(m).take(n) =~= json.take(n));
        lemma_trimmed_end_grows(json.take(m), n);
    }
    assert(arguments.subrange(0, q.len() as int) =~= q);
}

/// A chunk that does not complete the arguments.
proof fn lemma_part_sent(
    st: DeepSeekState,
    chunk: Seq<char>,
    lead: Seq<char>,
    name: Seq<char>,
    json: Seq<char>,
    n: int,
    tools: Seq<Tool>,
)
    requires
        clear_name(lead, name, tools),
        clear_arguments(json),
        sent_up_to(st, lead, name, json, n),
        n + chunk.len() < json.len(),
        json.take(n) + chunk == json.take(n + chunk.len()),
    ensures
        ({
            let (next, out) = feed(st, chunk, tools);
            let id = current_index(st);
            &&& sent_up_to(next, lead, name, json, n + chunk.len())
            &&& current_index(next) == id
            &&& out.normal_text.len() == 0
            &&& only_arguments(out.calls, id)
            &&& sent_before(next.streamed, id) == sent_before(st.streamed, id) + sent_by(
                out.calls,
                id,
            )
        }),
{
    let m = n + chunk.len();
    let arguments = json.take(m);
    let text = st.buffer + chunk;
    lemma_buffered_more(lead, name, json.take(n), chunk);
    lemma_clean_part(json, m);
    lemma_continues(json, n, trimmed_end(arguments));
    lemma_partial_call(lead, name, arguments);
    lemma_call_in(lead, name, arguments);
    lemma_feed(st, chunk, tools);
    lemma_arguments_sent(st, chunk, tools);
    lemma_prepared(DeepSeekState { buffer: text, ..st });
    assert(sent_before(feed(st, chunk, tools).0.streamed, current_index(st)) == sent_before(
        st.streamed,
        current_index(st),
    ) + sent_by(feed(st, chunk, tools).1.calls, current_index(st)));
}

/// The text of a call has the token that opens a call.
proof fn lemma_call_in(lead: Seq<char>, name: Seq<char>, arguments: Seq<char>)
    requires
        !contains(lead, TOOL_CALL_BEGIN@),
    ensures
        contains(buffered(lead, name, arguments), TOOL_CALL_BEGIN@),
        first_occurrence(buffered(lead, name, arguments), TOOL_CALL_BEGIN@) == Some(
            lead.len() as int,
        ),
{
    lemma_token_facts();
    lemma_first_behind(lead, TOOL_CALL_BEGIN@, name + (TOOL_SEP@ + arguments));
    lemma_first_occurrence(buffered(lead, name, arguments), TOOL_CALL_BEGIN@);
}

/// Behind arguments without it, the token that ends a call stands directly behind them.
proof fn lemma_end_behind(json: Seq<char>, m: Seq<char>, i: int)
    requires
        !contains(json, TOOL_CALL_END@),
        some_end_tokens(m),
        occurs_at(json + m, TOOL_CALL_END@, i),
    ensures
        i == json.len(),
        m.len() > 0,
{
    lemma_token_facts();
    lemma_other_token(TOOL_CALLS_END@, TOOL_CALL_END@, 11);
    let none = Seq::<char>::empty();
    assert(!contains(none, TOOL_CALL_END@));
    lemma_pattern_then(TOOL_CALL_END@, TOOL_CALLS_END@);
    lemma_pattern_then(TOOL_CALL_END@, none);
    assert(TOOL_CALL_END@ + none =~= TOOL_CALL_END@);
    assert(m.len() > 0 ==> m[0] == '<');
    lemma_occurs_concat(json, m, TOOL_CALL_END@, i);
    assert(!occurs_at(json, TOOL_CALL_END@, i));
    lemma_last_occurrence(m, TOOL_CALL_END@);
}

/// A call ends behind the token that ends its arguments.
proof fn lemma_end_of_call(lead: Seq<char>, name: Seq<char>, arguments: Seq<char>)
    requires
        !contains(lead, TOOL_CALL_BEGIN@),
        !contains(name, TOOL_SEP@),
    ensures
        ({
            let before = lead.len() + TOOL_CALL_BEGIN@.len() + name.len() + TOOL_SEP@.len();
            call_end(buffered(lead, name, arguments)) == match first_outside(
                arguments,
                TOOL_CALL_END@,
            ) {
                Some(i) => Some(before + i + TOOL_CALL_END@.len()),
                None => None,
            }
        }),
{
    lemma_token_facts();
    let text = buffered(lead, name, arguments);
    let after = name + (TOOL_SEP@ + arguments);
    lemma_call_in(lead, name, arguments);
    assert(text.skip(lead.len() as int + TOOL_CALL_BEGIN@.len()) =~= after);
    lemma_first_behind(name, TOOL_SEP@, arguments);
    assert(after.skip(name.len() as int + TOOL_SEP@.len()) =~= arguments);
}

/// What stays in the buffer behind a call that is complete.
proof fn lemma_rest_of_call(lead: Seq<char>, name: Seq<char>, json: Seq<char>, m: Seq<char>)
    requires
        !contains(lead, TOOL_CALL_BEGIN@),
        !contains(name, TOOL_SEP@),
        !contains(json, TOOL_CALL_END@),
        some_end_tokens(m),
    ensures
        ({
            let text = buffered(lead, name, json + m);
            call_end(text) matches Some(end) ==> {
                let rest = text.skip(end);
                rest.len() == 0 || (m == end_tokens() && rest == TOOL_CALLS_END@)
            }
        }),
{
    let arguments = json + m;
    let text = buffered(lead, name, arguments);
    lemma_end_of_call(lead, name, arguments);
    lemma_first_outside(arguments, TOOL_CALL_END@);
    if let Some(i) = first_outside(arguments, TOOL_CALL_END@) {
        lemma_end_behind(json, m, i);
        let end = call_end(text)->0;
        assert(text.skip(end) =~= m.skip(TOOL_CALL_END@.len() as int));
        if m == end_tokens() {
            assert(m.skip(TOOL_CALL_END@.len() as int) =~= TOOL_CALLS_END@);
        }
    }
}

/// The chunk that completes the arguments.
proof fn lemma_last_part_sent(
    st: DeepSeekState,
    chunk: Seq<char>,
    lead: Seq<char>,
    name: Seq<char>,
    json: Seq<char>,
    n: int,
    m: Seq<char>,
    tools: Seq<Tool>,
)
    requires
        clear_name(lead, name, tools),
        clear_arguments(json),
        sent_up_to(st, lead, name, json, n),
        some_end_tokens(m),
        json.take(n) + chunk == json + m,
    ensures
        ({
            let (next, out) = feed(st, chunk, tools);
            let id = current_index(st);
            &&& out.normal_text.len() == 0
            &&& only_arguments(out.calls, id)
            &&& sent_before(st.streamed, id) + sent_by(out.calls, id) == json
            &&& next.buffer.len() == 0 || (m == end_tokens() && next.buffer == TOOL_CALLS_END@)
        }),
{
    let arguments = json + m;
    let text = st.buffer + chunk;
    let id = current_index(st);
    lemma_buffered_more(lead, name, json.take(n), chunk);
    lemma_clean_full(json, m);
    lemma_continues(json, n, json);
    lemma_partial_call(lead, name, arguments);
    lemma_call_in(lead, name, arguments);
    lemma_rest_of_call(lead, name, json, m);
    lemma_feed(st, chunk, tools);
    lemma_arguments_sent(st, chunk, tools);
    lemma_prepared(DeepSeekState { buffer: text, ..st });
    assert(sent_before(feed(st, chunk, tools).0.streamed, id) == sent_before(st.streamed, id)
        + sent_by(feed(st, chunk, tools).1.calls, id));
}

/// A text of tokens that end something, of which a stream gives nothing through.
pub open spec fn ends_only(text: Seq<char>) -> bool {
    text.len() == 0 || text == TOOL_CALL_END@ || text == TOOL_CALLS_END@ || text == end_tokens()
}

proof fn lemma_replaced_none(s: Seq<char>, pat: Seq<char>)
    requires
        !contains(s, pat),
    ensures
        replaced(s, pat, ""@) == s,
{
    lemma_first_occurrence(s, pat);
}

proof fn lemma_replaced_last(a: Seq<char>, pat: Seq<char>)
    requires
        lone_head(pat),
        !contains(a, pat),
    ensures
        replaced(a + pat, pat, ""@) == a,
{
    reveal_strlit("");
    let none = Seq::<char>::empty();
    assert(a + (pat + none) =~= a + pat);
    lemma_first_behind(a, pat, none);
    let s = a + pat;
    assert(s.take(a.len() as int) =~= a);
    assert(s.skip(a.len() as int + pat.len()) =~= none);
    assert(!contains(none, pat));
    lemma_replaced_none(none, pat);
    assert(a + ""@ + none =~= a);
}

/// Tokens that end something are not given through, and open no call.
proof fn lemma_ends_only(text: Seq<char>)
    requires
        ends_only(text),
    ensures
        without_end_tokens(text).len() == 0,
        !contains(text, TOOL_CALLS_BEGIN@),
        !contains(text, TOOL_CALL_BEGIN@),
{
    lemma_token_facts();
    let none = Seq::<char>::empty();
    assert(!contains(none, TOOL_CALL_END@) && !contains(none, TOOL_CALLS_END@) && !contains(
        none,
        EOS_TOKEN@,
    ));
    assert(!contains(none, TOOL_CALLS_BEGIN@) && !contains(none, TOOL_CALL_BEGIN@));
    lemma_replaced_none(none, TOOL_CALL_END@);
    lemma_replaced_none(none, TOOL_CALLS_END@);
    lemma_replaced_none(none, EOS_TOKEN@);
    assert(!contains(TOOL_CALL_END@, TOOL_CALLS_END@));
    lemma_replaced_none(TOOL_CALL_END@, TOOL_CALLS_END@);
    lemma_replaced_last(none, TOOL_CALL_END@);
    lemma_replaced_last(none, TOOL_CALLS_END@);
    assert(none + TOOL_CALL_END@ =~= TOOL_CALL_END@);
    assert(none + TOOL_CALLS_END@ =~= TOOL_CALLS_END@);
    lemma_replaced_last(TOOL_CALL_END@, TOOL_CALLS_END@);
    lemma_other_token(TOOL_CALL_END@, TOOL_CALL_BEGIN@, 12);
    lemma_other_token(TOOL_CALLS_END@, TOOL_CALL_BEGIN@, 11);
    lemma_other_token(TOOL_CALL_END@, TOOL_CALLS_BEGIN@, 11);
    lemma_other_token(TOOL_CALLS_END@, TOOL_CALLS_BEGIN@, 13);
    lemma_contains_concat(TOOL_CALL_END@, TOOL_CALLS_END@, TOOL_CALL_BEGIN@);
    lemma_contains_concat(TOOL_CALL_END@, TOOL_CALLS_END@, TOOL_CALLS_BEGIN@);
    if text.len() == 0 {
        assert(text =~= none);
    }
}

/// What comes behind a call gives neither text nor items.
proof fn lemma_ends_fed(
    st: DeepSeekState,
    json: Seq<char>,
    m: Seq<char>,
    chunks: Seq<Seq<char>>,
    tools: Seq<Tool>,
)
    requires
        some_end_tokens(m),
        st.buffer.len() == 0 || (m == end_tokens() && st.buffer == TOOL_CALLS_END@),
        m + joined(chunks) == end_tokens(),
        uncut(json, json.len() as int + m.len(), chunks),
    ensures
        feed_all(st, chunks, tools).1.normal_text.len() == 0,
        feed_all(st, chunks, tools).1.calls.len() == 0,
    decreases chunks.len(),
{
    lemma_token_facts();
    if chunks.len() > 0 {
        let chunk = chunks[0];
        let rest = chunks.skip(1);
        let text = st.buffer + chunk;
        let n = json.len() as int + m.len() + chunk.len();
        assert(may_end(json, n));
        let now = m + chunk;
        assert(now =~= end_tokens().take(now.len() as int)) by {
            assert(m + joined(chunks) =~= now + joined(rest));
        }
        assert(some_end_tokens(now)) by {
            if now.len() == TOOL_CALL_END@.len() {
                assert(now =~= TOOL_CALL_END@);
            } else if now.len() == end_tokens().len() {
                assert(now =~= end_tokens());
            }
        }
        assert(ends_only(text)) by {
            if st.buffer.len() == 0 {
                assert(text =~= chunk);
                assert(chunk =~= now.skip(m.len() as int));
                if m.len() == 0 {
                    assert(chunk =~= now);
                } else if m == TOOL_CALL_END@ && now == end_tokens() {
                    assert(chunk =~= TOOL_CALLS_END@);
                }
            } else {
                assert(chunk.len() == 0);
                assert(text =~= TOOL_CALLS_END@);
            }
        }
        lemma_ends_only(text);
        let next = feed(st, chunk, tools).0;
        assert(now + joined(rest) =~= end_tokens());
        lemma_ends_fed(next, json, now, rest, tools);
    }
}

/// The arguments of a call are sent as they were written, however they are cut.
#[verifier::rlimit(30)]
proof fn lemma_arguments_cut(
    st: DeepSeekState,
    lead: Seq<char>,
    name: Seq<char>,
    json: Seq<char>,
    n: int,
    chunks: Seq<Seq<char>>,
    tools: Seq<Tool>,
)
    requires
        clear_name(lead, name, tools),
        clear_arguments(json),
        sent_up_to(st, lead, name, json, n),
        json.take(n) + joined(chunks) == json + end_tokens(),
        uncut(json, n, chunks),
    ensures
        ({
            let out = feed_all(st, chunks, tools).1;
            let id = current_index(st);
            &&& out.normal_text.len() == 0
            &&& only_arguments(out.calls, id)
            &&& sent_before(st.streamed, id) + sent_by(out.calls, id) == json
        }),
    decreases chunks.len(),
{
    lemma_token_facts();
    let all = json + end_tokens();
    if chunks.len() == 0 {
        assert((json.take(n) + joined(chunks)).len() == all.len());
    } else {
        let chunk = chunks[0];
        let rest = chunks.skip(1);
        let id = current_index(st);
        let m = n + chunk.len();
        let (next, first) = feed(st, chunk, tools);
        let more = feed_all(next, rest, tools).1;
        let now = json.take(n) + chunk;
        assert(now + joined(rest) =~= all);
        assert(now =~= all.take(m)) by {
            assert((now + joined(rest)).take(m) =~= now);
        }
        lemma_sent_by_concat(first.calls, more.calls, id);
        let sent = sent_before(st.streamed, id);
        if m < json.len() {
            assert(now =~= json.take(m));
            lemma_part_sent(st, chunk, lead, name, json, n, tools);
            lemma_arguments_cut(next, lead, name, json, m, rest, tools);
            assert(sent + sent_by(first.calls + more.calls, id) =~= json);
        } else {
            let tokens = now.skip(json.len() as int);
            assert(now =~= json + tokens) by {
                assert(all.take(m).take(json.len() as int) =~= json);
            }
            assert(tokens =~= end_tokens().take(m - json.len()));
            assert(some_end_tokens(tokens)) by {
                if m == json.len() + TOOL_CALL_END@.len() {
                    assert(tokens =~= TOOL_CALL_END@);
                } else if m == json.len() + end_tokens().len() {
                    assert(tokens =~= end_tokens());
                }
            }
            lemma_last_part_sent(st, chunk, lead, name, json, n, tokens, tools);
            assert(tokens + joined(rest) =~= end_tokens()) by {
                assert((now + joined(rest)).skip(json.len() as int) =~= tokens + joined(rest));
                assert(all.skip(json.len() as int) =~= end_tokens());
            }
            lemma_ends_fed(next, json, tokens, rest, tools);
            assert(more.calls =~= seq![]);
            assert(first.calls + more.calls =~= first.calls);
            assert(sent + sent_by(first.calls + more.calls, id) =~= json);
        }
    }
}

/// The separator stands at the end of the beginning of a call alone.
proof fn lemma_no_separator(name: Seq<char>, n: int)
    requires
        !contains(name, TOOL_SEP@),
        0 <= n < beginning(name).len(),
    ensures
        !contains(beginning(name).take(n), TOOL_SEP@),
{
    lemma_token_facts();
    let head = TOOL_CALLS_BEGIN@ + (TOOL_CALL_BEGIN@ + name);
    let all = beginning(name);
    lemma_contains_behind_tag(TOOL_CALL_BEGIN@, name, TOOL_SEP@, 7);
    lemma_contains_behind_tag(TOOL_CALLS_BEGIN@, TOOL_CALL_BEGIN@ + name, TOOL_SEP@, 7);
    lemma_first_behind(head, TOOL_SEP@, seq![]);
    assert(all =~= head + (TOOL_SEP@ + seq![]));
    lemma_first_occurrence(all, TOOL_SEP@);
    if contains(all.take(n), TOOL_SEP@) {
        let j = choose|j: int| #[trigger] occurs_at(all.take(n), TOOL_SEP@, j);
        assert(all.subrange(j, j + TOOL_SEP@.len()) =~= all.take(n).subrange(
            j,
            j + TOOL_SEP@.len(),
        ));
        assert(occurs_at(all, TOOL_SEP@, j));
    }
}

/// Where no separator has come, no call has.
proof fn lemma_no_partial_call(text: Seq<char>)
    requires
        !contains(text, TOOL_SEP@),
    ensures
        partial_call(text) is None,
{
    if let Some(i) = first_occurrence(text, TOOL_CALL_BEGIN@) {
        lemma_first_occurrence(text, TOOL_CALL_BEGIN@);
        let from = i + TOOL_CALL_BEGIN@.len();
        let after = text.skip(from);
        lemma_last_occurrence(after, TOOL_SEP@);
        if contains(after, TOOL_SEP@) {
            let j = choose|j: int| #[trigger] occurs_at(after, TOOL_SEP@, j);
            assert(text.subrange(from + j, from + j + TOOL_SEP@.len()) =~= after.subrange(
                j,
                j + TOOL_SEP@.len(),
            ));
            assert(occurs_at(text, TOOL_SEP@, from + j));
        }
    }
}

/// The name of a call is sent once its beginning has come, however it is cut.
proof fn lemma_beginning_cut(
    n: int,
    name: Seq<char>,
    chunks: Seq<Seq<char>>,
    tools: Seq<Tool>,
)
    requires
        clear_name(TOOL_CALLS_BEGIN@, name, tools),
        0 <= n < beginning(name).len(),
        beginning(name).take(n) + joined(chunks) == beginning(name),
        uncut_beginning(name, n, chunks),
    ensures
        ({
            let st = DeepSeekState { buffer: beginning(name).take(n), ..initial() };
            let (end, out) = feed_all(st, chunks, tools);
            &&& out.normal_text.len() == 0
            &&& out.calls == seq![name_item(0, name)]
            &&& valid(end)
            &&& end.name_sent
            &&& current_index(end) == 0
            &&& end.buffer == beginning(name)
            &&& sent_before(end.streamed, 0).len() == 0
        }),
    decreases chunks.len(),
{
    lemma_token_facts();
    let all = beginning(name);
    let st = DeepSeekState { buffer: all.take(n), ..initial() };
    if chunks.len() == 0 {
        assert(all.take(n) + joined(chunks) =~= all.take(n));
    } else {
        let chunk = chunks[0];
        let rest = chunks.skip(1);
        let m = n + chunk.len();
        let text = st.buffer + chunk;
        let (next, first) = feed(st, chunk, tools);
        let more = feed_all(next, rest, tools).1;
        assert(text + joined(rest) =~= all);
        assert(text =~= all.take(m)) by {
            assert((text + joined(rest)).take(m) =~= text);
        }
        if m < all.len() {
            lemma_no_separator(name, m);
            lemma_no_partial_call(text);
            if m == 0 {
                lemma_ends_only(text);
                assert(next.buffer =~= all.take(0));
            } else {
                assert(text.subrange(0, TOOL_CALLS_BEGIN@.len() as int) =~= TOOL_CALLS_BEGIN@);
                assert(occurs_at(text, TOOL_CALLS_BEGIN@, 0));
                assert(next.buffer == all.take(m));
            }
            assert(next == (DeepSeekState { buffer: all.take(m), ..initial() }));
            lemma_beginning_cut(m, name, rest, tools);
            assert(first.calls + more.calls =~= more.calls);
        } else {
            assert(text =~= all);
            assert(uncut_beginning(name, m, rest));
            assert(rest.len() == 0);
            let none = Seq::<char>::empty();
            assert(all =~= buffered(TOOL_CALLS_BEGIN@, name, none));
            assert(!contains(none, TOOL_SEP@));
            lemma_partial_call(TOOL_CALLS_BEGIN@, name, none);
            lemma_call_in(TOOL_CALLS_BEGIN@, name, none);
            lemma_feed(st, chunk, tools);
            lemma_prepared(DeepSeekState { buffer: text, ..st });
            assert(first.calls =~= seq![name_item(0, name)]);
            assert(first.calls + more.calls =~= first.calls);
            lemma_sent_by_one(name_item(0, name), 0);
            assert(sent_before(next.streamed, 0) == sent_before(st.streamed, 0) + sent_by(
                first.calls,
                0,
            ));
        }
    }
}

/// Some chunks and then others.
proof fn lemma_feed_all_concat(
    st: DeepSeekState,
    a: Seq<Seq<char>>,
    b: Seq<Seq<char>>,
    tools: Seq<Tool>,
)
    ensures
        ({
            let (mid, first) = feed_all(st, a, tools);
            let (end, more) = feed_all(mid, b, tools);
            feed_all(st, a + b, tools) == (
                end,
                ResultModel {
                    normal_text: first.normal_text + more.normal_text,
                    calls: first.calls + more.calls,
                },
            )
        }),
    decreases a.len(),
{
    let (mid, first) = feed_all(st, a, tools);
    let (end, more) = feed_all(mid, b, tools);
    let both = feed_all(st, a + b, tools);
    if a.len() == 0 {
        assert(a + b =~= b);
    } else {
        assert((a + b).skip(1) =~= a.skip(1) + b);
        lemma_feed_all_concat(feed(st, a[0], tools).0, a.skip(1), b, tools);
    }
    assert(both.1.normal_text =~= first.normal_text + more.normal_text);
    assert(both.1.calls =~= first.calls + more.calls);
}

/// A call is streamed as it was written, however it is cut into chunks, if no token is cut and
/// the arguments begin with a chunk: no text is given through, the name is sent first, and what
/// is sent of the arguments is, put together, the JSON text that was written.
pub proof fn lemma_stream_cut(
    name: Seq<char>,
    json: Seq<char>,
    heads: Seq<Seq<char>>,
    bodies: Seq<Seq<char>>,
    tools: Seq<Tool>,
)
    requires
        trimmed(name) == name,
        !contains(name, TOOL_SEP@),
        known_tool(tools, name),
        clear_arguments(json),
        joined(heads) == beginning(name),
        uncut_beginning(name, 0, heads),
        joined(bodies) == json + end_tokens(),
        uncut(json, 0, bodies),
    ensures
        ({
            let out = feed_all(initial(), heads + bodies, tools).1;
            &&& out.normal_text.len() == 0
            &&& out.calls.len() > 0
            &&& out.calls[0] == name_item(0, name)
            &&& only_arguments(out.calls.skip(1), 0)
            &&& sent_by(out.calls, 0) == json
        }),
{
    lemma_token_facts();
    lemma_other_token(TOOL_CALLS_BEGIN@, TOOL_CALL_BEGIN@, 11);
    let all = beginning(name);
    assert(all.take(0) + joined(heads) =~= all);
    assert(all.take(0) =~= initial().buffer);
    lemma_beginning_cut(0, name, heads, tools);
    let (mid, first) = feed_all(initial(), heads, tools);
    let (end, more) = feed_all(mid, bodies, tools);
    let none = Seq::<char>::empty();
    assert(json.take(0) =~= none);
    assert(trimmed_end(none) =~= none);
    assert(sent_before(mid.streamed, 0) =~= none);
    assert(all =~= buffered(TOOL_CALLS_BEGIN@, name, json.take(0)));
    assert(json.take(0) + joined(bodies) =~= json + end_tokens());
    lemma_arguments_cut(mid, TOOL_CALLS_BEGIN@, name, json, 0, bodies, tools);
    lemma_feed_all_concat(initial(), heads, bodies, tools);
    lemma_sent_by_concat(first.calls, more.calls, 0);
    lemma_sent_by_one(name_item(0, name), 0);
    let calls = first.calls + more.calls;
    assert(calls.skip(1) =~= more.calls);
    assert(sent_by(calls, 0) =~= json);
}

} // verus!
