//! What is written in the formats of GLM-4 is read back.
use super::{
    argument_pairs, arguments_of, block_call, blocks_calls, complete, first_argument, split_block,
    split_inner, GlmFormat, ARG_KEY_CLOSE, ARG_KEY_OPEN, ARG_VAL_CLOSE, ARG_VAL_OPEN, CLOSE, OPEN,
};
use crate::json::{json_text, members_of, JsonModel};
use crate::parsers::helpers::properties_of;
use crate::parsers::spans::{
    before_open, blocks, clear_blocks, clear_tokens, lemma_blocks_written, written_blocks,
};
use crate::text::concat::{
    lemma_contains_behind_tag, lemma_contains_concat, lemma_first_behind, lemma_first_concat,
    lemma_last_concat, lemma_no_head, lemma_pattern_then, lemma_skip_free, lemma_take_free,
    lemma_trimmed, lone_head, severed,
};
use crate::text::edit::{
    blank, lemma_trimmed_end_is, lemma_trimmed_is, lemma_trimmed_start_concat,
    lemma_trimmed_start_is, trimmed, trimmed_start, whitespace,
};
use crate::text::search::{
    contains, is_first, lemma_first_is, lemma_first_occurrence, occurs_at,
};
use crate::types::{CallModel, Tool};
use vstd::prelude::*;

verus! {

/// An argument, with `sep` behind its key and behind its value.
pub open spec fn written_argument(sep: Seq<char>, key: Seq<char>, value: Seq<char>) -> Seq<char> {
    ARG_KEY_OPEN@ + (key + (ARG_KEY_CLOSE@ + (sep + (ARG_VAL_OPEN@ + (value + (ARG_VAL_CLOSE@
        + sep))))))
}

/// Some arguments, one after the other.
pub open spec fn written_arguments(sep: Seq<char>, pairs: Seq<(Seq<char>, Seq<char>)>) -> Seq<char>
    decreases pairs.len(),
{
    if pairs.len() == 0 {
        seq![]
    } else {
        written_argument(sep, pairs[0].0, pairs[0].1) + written_arguments(sep, pairs.skip(1))
    }
}

/// The key and the value can be told from the tags round them. The value may have any tag in
/// it but the opening tag of a key.
pub open spec fn clear_argument(key: Seq<char>, value: Seq<char>) -> bool {
    &&& !contains(key, ARG_KEY_CLOSE@)
    &&& !contains(value, ARG_KEY_OPEN@)
}

/// The keys and values without the white space around them.
pub open spec fn trimmed_pairs(pairs: Seq<(Seq<char>, Seq<char>)>) -> Seq<(Seq<char>, Seq<char>)> {
    Seq::new(pairs.len(), |i: int| (trimmed(pairs[i].0), trimmed(pairs[i].1)))
}

/// All of the arguments can be told from the tags round them.
pub open spec fn clear_arguments(pairs: Seq<(Seq<char>, Seq<char>)>) -> bool {
    forall|i: int|
        0 <= i < pairs.len() ==> clear_argument((#[trigger] pairs[i]).0, pairs[i].1)
}

/// What the tags are, and where they differ.
pub proof fn lemma_tags()
    ensures
        lone_head(ARG_KEY_OPEN@),
        lone_head(ARG_KEY_CLOSE@),
        lone_head(ARG_VAL_OPEN@),
        lone_head(ARG_VAL_CLOSE@),
        lone_head(OPEN@),
        lone_head(CLOSE@),
        ARG_KEY_OPEN@[0] == '<',
        ARG_KEY_CLOSE@[0] == '<',
        ARG_VAL_OPEN@[0] == '<',
        ARG_VAL_CLOSE@[0] == '<',
        OPEN@[0] == '<',
        CLOSE@[0] == '<',
        forall|i: int| 0 <= i < ARG_KEY_OPEN@.len() ==> !whitespace(#[trigger] ARG_KEY_OPEN@[i]),
        !contains(ARG_VAL_CLOSE@, ARG_KEY_OPEN@),
        ARG_VAL_CLOSE@.last() == '>',
        !contains(CLOSE@, OPEN@),
{
    reveal_strlit("<arg_key>");
    reveal_strlit("</arg_key>");
    reveal_strlit("<arg_value>");
    reveal_strlit("</arg_value>");
    reveal_strlit("<tool_call>");
    reveal_strlit("</tool_call>");
    assert forall|j: int| !#[trigger] occurs_at(ARG_VAL_CLOSE@, ARG_KEY_OPEN@, j) by {
        if occurs_at(ARG_VAL_CLOSE@, ARG_KEY_OPEN@, j) {
            let found = ARG_VAL_CLOSE@.subrange(j, j + ARG_KEY_OPEN@.len());
            assert(found[0] == ARG_VAL_CLOSE@[j]);
            assert(found[1] == ARG_VAL_CLOSE@[j + 1]);
        }
    }
    assert forall|j: int| !#[trigger] occurs_at(CLOSE@, OPEN@, j) by {
        if occurs_at(CLOSE@, OPEN@, j) {
            let found = CLOSE@.subrange(j, j + OPEN@.len());
            assert(found[0] == CLOSE@[j]);
            assert(found[1] == CLOSE@[j + 1]);
        }
    }
}

/// What is written begins with the tag of a key, if there is any.
proof fn lemma_written_head(sep: Seq<char>, pairs: Seq<(Seq<char>, Seq<char>)>)
    ensures
        pairs.len() > 0 ==> {
            let s = written_arguments(sep, pairs);
            &&& s.len() > ARG_KEY_OPEN@.len()
            &&& s == ARG_KEY_OPEN@ + s.skip(ARG_KEY_OPEN@.len() as int)
            &&& occurs_at(s, ARG_KEY_OPEN@, 0)
        },
{
    if pairs.len() > 0 {
        lemma_tags();
        let s = written_arguments(sep, pairs);
        assert(s =~= ARG_KEY_OPEN@ + s.skip(ARG_KEY_OPEN@.len() as int));
        assert(s.subrange(0, ARG_KEY_OPEN@.len() as int) =~= ARG_KEY_OPEN@);
    }
}

/// One argument that is written before others is read back.
#[verifier::rlimit(30)]
proof fn lemma_first_argument(
    sep: Seq<char>,
    key: Seq<char>,
    value: Seq<char>,
    more: Seq<(Seq<char>, Seq<char>)>,
)
    requires
        blank(sep),
        clear_argument(key, value),
    ensures
        first_argument(written_argument(sep, key, value) + written_arguments(sep, more)) == Some(
            (trimmed(key), trimmed(value), written_arguments(sep, more)),
        ),
{
    lemma_tags();
    let rest = written_arguments(sep, more);
    let s = written_argument(sep, key, value) + rest;
    let z = value + (ARG_VAL_CLOSE@ + sep) + rest;
    let y = sep + (ARG_VAL_OPEN@ + z);
    let x = key + (ARG_KEY_CLOSE@ + y);
    assert(s =~= ARG_KEY_OPEN@ + x);
    assert(s.subrange(0, ARG_KEY_OPEN@.len() as int) =~= ARG_KEY_OPEN@);
    assert(is_first(s, ARG_KEY_OPEN@, 0));
    lemma_first_is(s, ARG_KEY_OPEN@, 0);
    assert(s.skip(ARG_KEY_OPEN@.len() as int) =~= x);
    lemma_first_behind(key, ARG_KEY_CLOSE@, y);
    assert(x.skip(key.len() as int + ARG_KEY_CLOSE@.len()) =~= y);
    assert(x.take(key.len() as int) =~= key);
    lemma_no_head(sep, ARG_VAL_OPEN@);
    lemma_first_behind(sep, ARG_VAL_OPEN@, z);
    assert(y.skip(sep.len() as int + ARG_VAL_OPEN@.len()) =~= z);
    let tail = ARG_VAL_CLOSE@ + sep;
    let region = value + tail;
    assert(tail[0] == '<');
    assert(!contains(region, ARG_KEY_OPEN@)) by {
        assert(severed(sep, ARG_KEY_OPEN@));
        lemma_no_head(sep, ARG_KEY_OPEN@);
        lemma_first_concat(ARG_VAL_CLOSE@, sep, ARG_KEY_OPEN@);
        lemma_first_concat(value, tail, ARG_KEY_OPEN@);
        lemma_first_occurrence(ARG_VAL_CLOSE@, ARG_KEY_OPEN@);
        lemma_first_occurrence(value, ARG_KEY_OPEN@);
        lemma_first_occurrence(region, ARG_KEY_OPEN@);
    }
    lemma_written_head(sep, more);
    lemma_first_occurrence(region, ARG_KEY_OPEN@);
    if more.len() > 0 {
        lemma_first_behind(region, ARG_KEY_OPEN@, rest.skip(ARG_KEY_OPEN@.len() as int));
        assert(z.take(region.len() as int) =~= region);
    } else {
        assert(z =~= region);
    }
    assert(before_open(z, ARG_KEY_OPEN@) == region);
    lemma_no_head(sep, ARG_VAL_CLOSE@);
    lemma_pattern_then(ARG_VAL_CLOSE@, sep);
    lemma_last_concat(value, tail, ARG_VAL_CLOSE@);
    assert(region.take(value.len() as int) =~= value);
    assert(z.skip(region.len() as int) =~= rest);
}

/// Arguments are read back as they were written, keys and values, in their order, without the
/// white space around them. A closing tag that stands literally in a value is part of the value.
pub proof fn lemma_arguments_round_trip(sep: Seq<char>, pairs: Seq<(Seq<char>, Seq<char>)>)
    requires
        blank(sep),
        clear_arguments(pairs),
    ensures
        argument_pairs(written_arguments(sep, pairs)) == trimmed_pairs(pairs),
    decreases pairs.len(),
{
    if pairs.len() == 0 {
        lemma_first_occurrence(seq![], ARG_KEY_OPEN@);
        lemma_tags();
        lemma_no_head(seq![], ARG_KEY_OPEN@);
        assert(argument_pairs(seq![]) =~= trimmed_pairs(pairs));
    } else {
        let more = pairs.skip(1);
        assert(clear_argument(pairs[0].0, pairs[0].1));
        assert forall|i: int| 0 <= i < more.len() implies clear_argument(
            (#[trigger] more[i]).0,
            more[i].1,
        ) by {
            assert(more[i] == pairs[i + 1]);
        }
        lemma_first_argument(sep, pairs[0].0, pairs[0].1, more);
        lemma_arguments_round_trip(sep, more);
        assert(trimmed_pairs(pairs) =~= seq![(trimmed(pairs[0].0), trimmed(pairs[0].1))]
            + trimmed_pairs(more));
    }
}

/// What stands behind the name of a call, and behind each key and value.
pub open spec fn separator(format: GlmFormat) -> Seq<char> {
    match format {
        GlmFormat::Glm45 => "\n"@,
        GlmFormat::Glm47 => ""@,
    }
}

/// A call, by its name and its arguments.
pub struct GlmCall {
    pub name: Seq<char>,
    pub arguments: Seq<(Seq<char>, Seq<char>)>,
}

/// The inside of the block of a call.
pub open spec fn written_inner(format: GlmFormat, call: GlmCall) -> Seq<char> {
    call.name + (separator(format) + written_arguments(separator(format), call.arguments))
}

/// A call, as the format writes it.
pub open spec fn written_call(format: GlmFormat, call: GlmCall) -> Seq<char> {
    OPEN@ + (written_inner(format, call) + CLOSE@)
}

/// The name and the arguments can be told from what stands round them.
pub open spec fn clear_call(format: GlmFormat, call: GlmCall) -> bool {
    &&& trimmed(call.name).len() > 0
    &&& match format {
        GlmFormat::Glm45 => !contains(call.name, "\n"@),
        GlmFormat::Glm47 => !contains(call.name, ARG_KEY_OPEN@),
    }
    &&& clear_arguments(call.arguments)
}

/// The call as it is given to the caller, without the white space around its name, its keys and
/// its values: each value by its schema type, or else by what it looks like.
pub open spec fn call_model(call: GlmCall, tools: Seq<Tool>) -> CallModel {
    CallModel {
        name: trimmed(call.name),
        arguments: json_text(
            JsonModel::Object(
                members_of(
                    arguments_of(
                        trimmed_pairs(call.arguments),
                        properties_of(tools, trimmed(call.name)),
                    ),
                ),
            ),
        ),
    }
}

proof fn lemma_separator(format: GlmFormat)
    ensures
        blank(separator(format)),
        format is Glm47 ==> separator(format).len() == 0,
        "\n"@.len() == 1,
{
    reveal_strlit("\n");
    reveal_strlit("");
}

/// Arguments without white space between them end with a closing tag.
proof fn lemma_written_last(sep: Seq<char>, pairs: Seq<(Seq<char>, Seq<char>)>)
    requires
        sep.len() == 0,
        pairs.len() > 0,
    ensures
        written_arguments(sep, pairs).len() > 0,
        written_arguments(sep, pairs).last() == '>',
    decreases pairs.len(),
{
    lemma_tags();
    let one = written_argument(sep, pairs[0].0, pairs[0].1);
    assert(one.last() == ARG_VAL_CLOSE@.last());
    if pairs.len() > 1 {
        lemma_written_last(sep, pairs.skip(1));
    } else {
        assert(written_arguments(sep, pairs.skip(1)).len() == 0);
    }
}

/// The name ends at the line break.
proof fn lemma_split_glm45(call: GlmCall)
    requires
        clear_call(GlmFormat::Glm45, call),
    ensures
        split_inner(GlmFormat::Glm45, written_inner(GlmFormat::Glm45, call)) == Some(
            (trimmed(call.name), written_arguments(separator(GlmFormat::Glm45), call.arguments)),
        ),
{
    lemma_tags();
    lemma_separator(GlmFormat::Glm45);
    let args = written_arguments("\n"@, call.arguments);
    let inner = written_inner(GlmFormat::Glm45, call);
    lemma_written_head("\n"@, call.arguments);
    assert(trimmed_start(args) == args);
    lemma_first_behind(call.name, "\n"@, args);
    assert(inner.take(call.name.len() as int) =~= call.name);
    assert(inner.skip(call.name.len() as int + "\n"@.len()) =~= args);
}

/// The name ends at the first key, or with the block.
proof fn lemma_split_glm47(call: GlmCall)
    requires
        clear_call(GlmFormat::Glm47, call),
    ensures
        split_inner(GlmFormat::Glm47, written_inner(GlmFormat::Glm47, call)) == Some(
            (trimmed(call.name), written_arguments(separator(GlmFormat::Glm47), call.arguments)),
        ),
{
    lemma_tags();
    lemma_separator(GlmFormat::Glm47);
    let sep = separator(GlmFormat::Glm47);
    let args = written_arguments(sep, call.arguments);
    let inner = written_inner(GlmFormat::Glm47, call);
    assert(inner =~= call.name + args);
    let start = trimmed_start(call.name);
    let n = call.name.len() - start.len();
    lemma_trimmed_start_is(call.name);
    lemma_trimmed_is(call.name);
    if call.arguments.len() > 0 {
        lemma_written_head(sep, call.arguments);
        lemma_written_last(sep, call.arguments);
        lemma_skip_free(call.name, ARG_KEY_OPEN@, n);
        let body = start + args;
        lemma_trimmed_start_concat(call.name, args);
        lemma_trimmed(body);
        lemma_first_behind(start, ARG_KEY_OPEN@, args.skip(ARG_KEY_OPEN@.len() as int));
        assert(trimmed(inner) == body);
        assert(trimmed_start(args) == args);
        assert(body.take(start.len() as int) =~= start);
        assert(body.skip(start.len() as int) =~= args);
        lemma_trimmed_start_is(start);
        assert(trimmed_start(start) == start);
    } else {
        assert(inner =~= call.name);
        let body = trimmed(call.name);
        lemma_skip_free(call.name, ARG_KEY_OPEN@, n);
        lemma_trimmed_end_is(start);
        lemma_take_free(start, ARG_KEY_OPEN@, body.len() as int);
        lemma_first_occurrence(body, ARG_KEY_OPEN@);
    }
}

/// A call is read back from its block as it was written. Its arguments may hold closing tags
/// literally, those of the block included.
pub proof fn lemma_block_round_trip(format: GlmFormat, call: GlmCall, tools: Seq<Tool>)
    requires
        clear_call(format, call),
    ensures
        block_call(format, written_call(format, call), tools) == Some(call_model(call, tools)),
{
    let sep = separator(format);
    let args = written_arguments(sep, call.arguments);
    let inner = written_inner(format, call);
    let block = written_call(format, call);
    match format {
        GlmFormat::Glm45 => lemma_split_glm45(call),
        GlmFormat::Glm47 => lemma_split_glm47(call),
    }
    let rest = inner + CLOSE@;
    assert(block.subrange(0, OPEN@.len() as int) =~= OPEN@);
    assert(block.skip(OPEN@.len() as int) =~= rest);
    assert(rest.subrange(inner.len() as int, inner.len() as int + CLOSE@.len()) =~= CLOSE@);
    assert(rest.take(inner.len() as int) =~= inner);
    assert(split_block(format, block) == Some((trimmed(call.name), args)));
    lemma_separator(format);
    lemma_arguments_round_trip(sep, call.arguments);
}

/// The insides of the blocks of some calls, each with the text that follows the block.
pub open spec fn insides(format: GlmFormat, items: Seq<(GlmCall, Seq<char>)>) -> Seq<
    (Seq<char>, Seq<char>),
> {
    Seq::new(items.len(), |i: int| (written_inner(format, items[i].0), items[i].1))
}

/// Some calls, each with the text that follows it.
pub open spec fn written_calls(format: GlmFormat, items: Seq<(GlmCall, Seq<char>)>) -> Seq<char> {
    written_blocks(insides(format, items), OPEN@, CLOSE@)
}

/// The opening tag of a call stands nowhere in the call.
pub open spec fn free_of_open(call: GlmCall) -> bool {
    &&& !contains(call.name, OPEN@)
    &&& forall|i: int|
        0 <= i < call.arguments.len() ==> !contains((#[trigger] call.arguments[i]).0, OPEN@)
            && !contains(call.arguments[i].1, OPEN@)
}

/// The calls can be told from each other and from the text between them.
pub open spec fn clear_calls(format: GlmFormat, items: Seq<(GlmCall, Seq<char>)>) -> bool {
    forall|i: int|
        0 <= i < items.len() ==> {
            &&& clear_call(format, (#[trigger] items[i]).0)
            &&& free_of_open(items[i].0)
            &&& !contains(items[i].1, OPEN@)
            &&& !contains(items[i].1, CLOSE@)
        }
}

/// The calls as they are given to the caller.
pub open spec fn calls_models(items: Seq<(GlmCall, Seq<char>)>, tools: Seq<Tool>) -> Seq<CallModel> {
    Seq::new(items.len(), |i: int| call_model(items[i].0, tools))
}

proof fn lemma_second_characters()
    ensures
        OPEN@.len() >= 2,
        ARG_KEY_OPEN@.len() >= 2,
        ARG_KEY_CLOSE@.len() >= 2,
        ARG_VAL_OPEN@.len() >= 2,
        ARG_VAL_CLOSE@.len() >= 2,
        CLOSE@.len() >= 2,
        ARG_KEY_OPEN@[1] != OPEN@[1],
        ARG_KEY_CLOSE@[1] != OPEN@[1],
        ARG_VAL_OPEN@[1] != OPEN@[1],
        ARG_VAL_CLOSE@[1] != OPEN@[1],
        CLOSE@[1] != OPEN@[1],
        forall|i: int| 0 <= i < OPEN@.len() ==> !whitespace(#[trigger] OPEN@[i]),
{
    reveal_strlit("<arg_key>");
    reveal_strlit("</arg_key>");
    reveal_strlit("<arg_value>");
    reveal_strlit("</arg_value>");
    reveal_strlit("<tool_call>");
    reveal_strlit("</tool_call>");
}

/// Where the keys and values are free of the opening tag of a call, so is what is written of
/// them.
proof fn lemma_arguments_free(sep: Seq<char>, pairs: Seq<(Seq<char>, Seq<char>)>)
    requires
        blank(sep),
        forall|i: int|
            0 <= i < pairs.len() ==> !contains((#[trigger] pairs[i]).0, OPEN@) && !contains(
                pairs[i].1,
                OPEN@,
            ),
    ensures
        !contains(written_arguments(sep, pairs), OPEN@),
    decreases pairs.len(),
{
    lemma_tags();
    lemma_second_characters();
    if pairs.len() == 0 {
        lemma_no_head(seq![], OPEN@);
    } else {
        let more = pairs.skip(1);
        assert forall|i: int| 0 <= i < more.len() implies !contains(
            (#[trigger] more[i]).0,
            OPEN@,
        ) && !contains(more[i].1, OPEN@) by {
            assert(more[i] == pairs[i + 1]);
        }
        lemma_arguments_free(sep, more);
        lemma_written_head(sep, more);
        let rest = written_arguments(sep, more);
        let (key, value) = pairs[0];
        assert(!contains(key, OPEN@) && !contains(value, OPEN@));
        lemma_no_head(sep, OPEN@);
        let f = sep + rest;
        lemma_contains_concat(sep, rest, OPEN@);
        let e = ARG_VAL_CLOSE@ + f;
        lemma_contains_behind_tag(ARG_VAL_CLOSE@, f, OPEN@, 1);
        let d = value + e;
        lemma_contains_concat(value, e, OPEN@);
        let c = ARG_VAL_OPEN@ + d;
        lemma_contains_behind_tag(ARG_VAL_OPEN@, d, OPEN@, 1);
        let b = sep + c;
        lemma_contains_concat(sep, c, OPEN@);
        let a = ARG_KEY_CLOSE@ + b;
        lemma_contains_behind_tag(ARG_KEY_CLOSE@, b, OPEN@, 1);
        lemma_contains_concat(key, a, OPEN@);
        lemma_contains_behind_tag(ARG_KEY_OPEN@, key + a, OPEN@, 1);
        assert(written_arguments(sep, pairs) =~= ARG_KEY_OPEN@ + (key + a));
    }
}

/// The inside of a block is free of the opening tag of a call, if the call is.
proof fn lemma_inner_free(format: GlmFormat, call: GlmCall)
    requires
        free_of_open(call),
    ensures
        !contains(written_inner(format, call), OPEN@),
{
    lemma_tags();
    lemma_separator(format);
    lemma_second_characters();
    let sep = separator(format);
    let args = written_arguments(sep, call.arguments);
    lemma_arguments_free(sep, call.arguments);
    lemma_written_head(sep, call.arguments);
    lemma_no_head(sep, OPEN@);
    lemma_contains_concat(sep, args, OPEN@);
    lemma_contains_concat(call.name, sep + args, OPEN@);
}

/// The blocks of clear calls are clear.
pub proof fn lemma_insides_clear(format: GlmFormat, items: Seq<(GlmCall, Seq<char>)>)
    requires
        clear_calls(format, items),
    ensures
        clear_tokens(OPEN@, CLOSE@),
        clear_blocks(insides(format, items), OPEN@, CLOSE@),
{
    lemma_tags();
    lemma_second_characters();
    let all = insides(format, items);
    assert forall|i: int| 0 <= i < all.len() implies {
        &&& !contains((#[trigger] all[i]).0, OPEN@)
        &&& !contains(all[i].1, OPEN@)
        &&& !contains(all[i].1, CLOSE@)
    } by {
        assert(clear_call(format, items[i].0));
        lemma_inner_free(format, items[i].0);
    }
}

/// The calls in the blocks of clear calls.
pub proof fn lemma_blocks_calls(
    format: GlmFormat,
    items: Seq<(GlmCall, Seq<char>)>,
    tools: Seq<Tool>,
)
    requires
        clear_calls(format, items),
    ensures
        blocks_calls(
            format,
            Seq::new(items.len(), |i: int| written_call(format, items[i].0)),
            tools,
        ) == calls_models(items, tools),
    decreases items.len(),
{
    let written = Seq::new(items.len(), |i: int| written_call(format, items[i].0));
    if items.len() == 0 {
        assert(calls_models(items, tools) =~= seq![]);
    } else {
        let before = items.drop_last();
        assert forall|i: int| 0 <= i < before.len() implies {
            &&& clear_call(format, (#[trigger] before[i]).0)
            &&& free_of_open(before[i].0)
            &&& !contains(before[i].1, OPEN@)
            &&& !contains(before[i].1, CLOSE@)
        } by {
            assert(before[i] == items[i]);
        }
        lemma_blocks_calls(format, before, tools);
        assert(written.drop_last() =~= Seq::new(
            before.len(),
            |i: int| written_call(format, before[i].0),
        ));
        assert(clear_call(format, items[items.len() - 1].0));
        lemma_block_round_trip(format, items.last().0, tools);
        assert(calls_models(items, tools) =~= calls_models(before, tools).push(
            call_model(items.last().0, tools),
        ));
    }
}

/// A text with calls is read back as it was written: the text before the calls, and the calls
/// in their order. What stands between the calls is passed over.
pub proof fn lemma_round_trip(
    format: GlmFormat,
    lead: Seq<char>,
    items: Seq<(GlmCall, Seq<char>)>,
    tools: Seq<Tool>,
)
    requires
        !contains(lead, OPEN@),
        clear_calls(format, items),
    ensures
        complete(format, lead + written_calls(format, items), tools) == (
            lead,
            calls_models(items, tools),
        ),
{
    let text = lead + written_calls(format, items);
    lemma_insides_clear(format, items);
    lemma_blocks_written(lead, insides(format, items), OPEN@, CLOSE@);
    lemma_blocks_calls(format, items, tools);
    assert(blocks(text, OPEN@, CLOSE@) =~= Seq::new(
        items.len(),
        |i: int| written_call(format, items[i].0),
    ));
    if items.len() > 0 {
        assert(text.take(lead.len() as int) =~= lead);
    } else {
        assert(text =~= lead);
        assert(calls_models(items, tools) =~= seq![]);
    }
}

/// A text without the opening tag of a call is given back as it is, without calls.
pub proof fn lemma_no_marker(format: GlmFormat, text: Seq<char>, tools: Seq<Tool>)
    requires
        !contains(text, OPEN@),
    ensures
        complete(format, text, tools) == (text, Seq::<CallModel>::empty()),
{
    lemma_first_occurrence(text, OPEN@);
}

} // verus!
