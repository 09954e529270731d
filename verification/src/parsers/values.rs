//! What the values of parameters are: by the schema of the tool, and else by what they look like.
use super::helpers::{coerced, declared_type_of, inferred_value, plain_value, properties_of};
use crate::json::{float_number, members_of, parsed_json, value_model, JsonModel, NumberModel};
use crate::text::number::{decimal, integer_of, lemma_decimal, lemma_integer_characters};
use crate::types::Tool;
use vstd::prelude::*;

verus! {

/// The first tool called `name` declares the type `t` for the parameter `key`: its parameters are
/// an object with the member `properties`, an object with the member `key`, an object with the
/// member `type`, the string `t`.
pub open spec fn declares(
    tools: Seq<Tool>,
    name: Seq<char>,
    key: Seq<char>,
    t: Seq<char>,
) -> bool {
    exists|i: int|
        {
            &&& 0 <= i < tools.len()
            &&& (#[trigger] tools[i]).function.name@ == name
            &&& forall|j: int| 0 <= j < i ==> (#[trigger] tools[j]).function.name@ != name
            &&& value_model(tools[i].function.parameters) matches JsonModel::Object(schema)
            &&& schema.contains_key("properties"@)
            &&& schema["properties"@] matches JsonModel::Object(properties)
            &&& properties.contains_key(key)
            &&& properties[key] matches JsonModel::Object(property)
            &&& property.contains_key("type"@)
            &&& property["type"@] == JsonModel::Text(t)
        }
}

/// The schema types are those that the first tool of a name declares.
pub proof fn lemma_declares(tools: Seq<Tool>, name: Seq<char>, key: Seq<char>, t: Seq<char>)
    ensures
        declares(tools, name, key, t) <==> declared_type_of(properties_of(tools, name), key)
            == Some(t),
    decreases tools.len(),
{
    if tools.len() > 0 {
        let rest = tools.skip(1);
        if tools[0].function.name@ == name {
            if declares(tools, name, key, t) {
                let i = choose|i: int|
                    0 <= i < tools.len() && (#[trigger] tools[i]).function.name@ == name && forall|
                        j: int,
                    |
                        0 <= j < i ==> (#[trigger] tools[j]).function.name@ != name;
                if i > 0 {
                    assert(tools[0].function.name@ != name);
                }
            }
        } else {
            lemma_declares(rest, name, key, t);
            if declares(tools, name, key, t) {
                let i = choose|i: int|
                    {
                        &&& 0 <= i < tools.len()
                        &&& (#[trigger] tools[i]).function.name@ == name
                        &&& forall|j: int|
                            0 <= j < i ==> (#[trigger] tools[j]).function.name@ != name
                        &&& value_model(tools[i].function.parameters) matches JsonModel::Object(
                            schema,
                        )
                        &&& schema.contains_key("properties"@)
                        &&& schema["properties"@] matches JsonModel::Object(properties)
                        &&& properties.contains_key(key)
                        &&& properties[key] matches JsonModel::Object(property)
                        &&& property.contains_key("type"@)
                        &&& property["type"@] == JsonModel::Text(t)
                    };
                assert(rest[i - 1] == tools[i]);
                assert forall|j: int| 0 <= j < i - 1 implies (#[trigger] rest[j]).function.name@
                    != name by {
                    assert(tools[j + 1] == rest[j]);
                }
            }
            if declares(rest, name, key, t) {
                let i = choose|i: int|
                    {
                        &&& 0 <= i < rest.len()
                        &&& (#[trigger] rest[i]).function.name@ == name
                        &&& forall|j: int|
                            0 <= j < i ==> (#[trigger] rest[j]).function.name@ != name
                        &&& value_model(rest[i].function.parameters) matches JsonModel::Object(
                            schema,
                        )
                        &&& schema.contains_key("properties"@)
                        &&& schema["properties"@] matches JsonModel::Object(properties)
                        &&& properties.contains_key(key)
                        &&& properties[key] matches JsonModel::Object(property)
                        &&& property.contains_key("type"@)
                        &&& property["type"@] == JsonModel::Text(t)
                    };
                assert(tools[i + 1] == rest[i]);
                assert forall|j: int| 0 <= j < i + 1 implies (#[trigger] tools[j]).function.name@
                    != name by {
                    if j > 0 {
                        assert(rest[j - 1] == tools[j]);
                    }
                }
            }
        }
    }
}

/// The JSON value is one of the type `t`, other than a string.
pub open spec fn is_one_of(value: JsonModel, t: Seq<char>) -> bool {
    match value {
        JsonModel::Null => t == "null"@,
        JsonModel::Bool(_) => t == "boolean"@,
        JsonModel::Number(NumberModel::Integer(_)) => t == "integer"@ || t == "number"@,
        JsonModel::Number(NumberModel::Float(_)) => t == "number"@,
        JsonModel::Text(_) => false,
        JsonModel::Array(_) => t == "array"@,
        JsonModel::Object(_) => t == "object"@,
    }
}

/// The declared type says what a text is: it is a string, or the text is JSON of that type.
pub open spec fn decided_by(text: Seq<char>, t: Seq<char>) -> bool {
    t == "string"@ || (parsed_json(text) matches Ok(read) && is_one_of(read, t))
}

/// The value is what a text of the declared type is: the text itself for a string, also where
/// it looks like something else, and else the JSON that it spells.
pub open spec fn of_type(value: JsonModel, text: Seq<char>, t: Seq<char>) -> bool {
    &&& t == "string"@ ==> value == JsonModel::Text(text)
    &&& t != "string"@ ==> parsed_json(text) == Ok::<JsonModel, Seq<char>>(value)
}

/// The text is a word for a literal, in JSON or in Python.
pub open spec fn is_word(text: Seq<char>) -> bool {
    ||| text == "true"@
    ||| text == "True"@
    ||| text == "false"@
    ||| text == "False"@
    ||| text == "null"@
    ||| text == "None"@
}

/// The text is decimal digits, with or without a sign before them.
pub open spec fn is_digits(text: Seq<char>) -> bool {
    &&& text.len() > 0
    &&& forall|i: int| 1 <= i < text.len() ==> '0' <= #[trigger] text[i] <= '9'
    &&& '0' <= text[0] <= '9' || (text.len() > 1 && (text[0] == '-' || text[0] == '+'))
}

/// The value is what a text is by its looks: a literal, an integer, a floating-point number, or
/// else the text itself.
pub open spec fn by_looks(value: JsonModel, text: Seq<char>) -> bool {
    &&& text == "true"@ || text == "True"@ ==> value == JsonModel::Bool(true)
    &&& text == "false"@ || text == "False"@ ==> value == JsonModel::Bool(false)
    &&& text == "null"@ || text == "None"@ ==> value == JsonModel::Null
    &&& forall|n: int|
        i64::MIN <= n <= i64::MAX && text == #[trigger] decimal(n) ==> value == JsonModel::Number(
            NumberModel::Integer(n),
        )
    &&& !is_word(text) ==> match integer_of(text) {
        Some(n) => value == JsonModel::Number(NumberModel::Integer(n)),
        None => match float_number(text) {
            Some(n) => value == JsonModel::Number(n),
            None => value == JsonModel::Text(text),
        },
    }
    &&& !is_word(text) && !is_digits(text) ==> match float_number(text) {
        Some(n) => value == JsonModel::Number(n),
        None => value == JsonModel::Text(text),
    }
}

/// The value is the JSON that a text spells, or else what the text is by its looks.
pub open spec fn by_json(value: JsonModel, text: Seq<char>) -> bool {
    match parsed_json(text) {
        Ok(read) => value == read,
        Err(_) => by_looks(value, text),
    }
}

proof fn lemma_words()
    ensures
        forall|text: Seq<char>| #[trigger] is_word(text) ==> text.len() > 0 && !('0' <= text[0]
            <= '9') && text[0] != '-' && text[0] != '+',
        "true"@ != "false"@,
        "true"@ != "False"@,
        "True"@ != "false"@,
        "True"@ != "False"@,
        "true"@ != "null"@,
        "true"@ != "None"@,
        "True"@ != "null"@,
        "True"@ != "None"@,
        "false"@ != "null"@,
        "false"@ != "None"@,
        "False"@ != "null"@,
        "False"@ != "None"@,
{
    reveal_strlit("true");
    reveal_strlit("True");
    reveal_strlit("false");
    reveal_strlit("False");
    reveal_strlit("null");
    reveal_strlit("None");
    assert("true"@[0] == 't' && "True"@[0] == 'T' && "false"@[0] == 'f' && "False"@[0] == 'F'
        && "null"@[0] == 'n' && "None"@[0] == 'N');
}

/// A text without a schema type is a literal, an integer, a floating-point number or a string, by
/// its looks.
pub proof fn lemma_plain_value(text: Seq<char>)
    ensures
        by_looks(plain_value(text), text),
{
    lemma_words();
    lemma_integer_characters(text);
    assert forall|n: int|
        i64::MIN <= n <= i64::MAX && text == #[trigger] decimal(n) implies plain_value(text)
        == JsonModel::Number(NumberModel::Integer(n)) by {
        lemma_decimal(n);
        if is_word(text) {
            assert(text.len() > 0);
        }
    }
}

/// A text that is JSON is read as such, and another by its looks.
pub proof fn lemma_inferred_value(text: Seq<char>)
    ensures
        by_json(inferred_value(text), text),
{
    lemma_plain_value(text);
}

/// A text is read by the declared type where that says what it is, and nowhere else.
pub proof fn lemma_coerced(text: Seq<char>, declared: Option<Seq<char>>)
    ensures
        match declared {
            Some(t) => {
                &&& coerced(text, declared) is Some <==> decided_by(text, t)
                &&& coerced(text, declared) matches Some(value) ==> of_type(value, text, t)
            },
            None => coerced(text, declared) is None,
        },
{
    reveal_strlit("string");
    reveal_strlit("integer");
    reveal_strlit("number");
    reveal_strlit("boolean");
    reveal_strlit("null");
    reveal_strlit("array");
    reveal_strlit("object");
}

/// The value of a parameter is of the type that the tool declares for it, where that type says
/// what the text is.
pub open spec fn by_schema(
    value: JsonModel,
    text: Seq<char>,
    tools: Seq<Tool>,
    name: Seq<char>,
    key: Seq<char>,
) -> bool {
    forall|t: Seq<char>| #[trigger]
        declares(tools, name, key, t) && decided_by(text, t) ==> of_type(value, text, t)
}

/// No type is declared for the parameter, or one that does not say what the text is.
pub open spec fn undecided(
    text: Seq<char>,
    tools: Seq<Tool>,
    name: Seq<char>,
    key: Seq<char>,
) -> bool {
    forall|t: Seq<char>| #[trigger] declares(tools, name, key, t) ==> !decided_by(text, t)
}

/// The schema of a tool decides over the values of its parameters.
pub proof fn lemma_by_schema(
    text: Seq<char>,
    tools: Seq<Tool>,
    name: Seq<char>,
    key: Seq<char>,
)
    ensures
        match coerced(text, declared_type_of(properties_of(tools, name), key)) {
            Some(value) => by_schema(value, text, tools, name, key) && !undecided(
                text,
                tools,
                name,
                key,
            ),
            None => undecided(text, tools, name, key),
        },
{
    let declared = declared_type_of(properties_of(tools, name), key);
    lemma_coerced(text, declared);
    assert forall|t: Seq<char>| #[trigger] declares(tools, name, key, t) <==> declared == Some(
        t,
    ) by {
        lemma_declares(tools, name, key, t);
    }
    if declared is Some {
        assert(declares(tools, name, key, declared->0));
    }
}

/// `i` is the last of the places that have the key.
pub open spec fn is_last_of<T>(pairs: Seq<(Seq<char>, T)>, i: int) -> bool {
    &&& 0 <= i < pairs.len()
    &&& forall|j: int| i < j < pairs.len() ==> (#[trigger] pairs[j]).0 != pairs[i].0
}

/// An object has the keys of the pairs that were inserted, and no others, each with the value that
/// came last.
pub proof fn lemma_members(pairs: Seq<(Seq<char>, JsonModel)>)
    ensures
        forall|key: Seq<char>| #[trigger]
            members_of(pairs).contains_key(key) <==> exists|i: int|
                0 <= i < pairs.len() && (#[trigger] pairs[i]).0 == key,
        forall|i: int| #[trigger]
            is_last_of(pairs, i) ==> members_of(pairs)[pairs[i].0] == pairs[i].1,
    decreases pairs.len(),
{
    if pairs.len() > 0 {
        let before = pairs.drop_last();
        lemma_members(before);
        assert forall|key: Seq<char>| #[trigger]
            members_of(pairs).contains_key(key) <==> exists|i: int|
                0 <= i < pairs.len() && (#[trigger] pairs[i]).0 == key by {
            if members_of(pairs).contains_key(key) {
                if key == pairs.last().0 {
                    assert(pairs[pairs.len() - 1].0 == key);
                } else {
                    assert(members_of(before).contains_key(key));
                    let i = choose|i: int|
                        0 <= i < before.len() && (#[trigger] before[i]).0 == key;
                    assert(pairs[i].0 == key);
                }
            }
            if exists|i: int| 0 <= i < pairs.len() && (#[trigger] pairs[i]).0 == key {
                let i = choose|i: int| 0 <= i < pairs.len() && (#[trigger] pairs[i]).0 == key;
                if i < before.len() {
                    assert(before[i].0 == key);
                    assert(members_of(before).contains_key(key));
                }
            }
        }
        assert forall|i: int| #[trigger] is_last_of(pairs, i) implies members_of(pairs)[pairs[i].0]
            == pairs[i].1 by {
            if i < pairs.len() - 1 {
                assert(pairs[pairs.len() - 1].0 != pairs[i].0);
                assert forall|j: int| i < j < before.len() implies (#[trigger] before[j]).0
                    != before[i].0 by {
                    assert(pairs[j].0 != pairs[i].0);
                }
                assert(is_last_of(before, i));
                assert(before[i].0 == pairs[i].0);
            }
        }
    }
}

} // verus!
