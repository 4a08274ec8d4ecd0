//! Lua source for the values of a TOML module.

use crate::source_metadata::{refused, SourceError};
use crate::text::{chars_of, decimal, decimal_text, ends_with, joined};
use vstd::prelude::*;

verus! {

/// A value that a module returns. Numbers in floating point and dates are carried as
/// text.
#[derive(Debug)]
pub enum TomlValue {
    Text(String),
    Integer(i64),
    Float(String),
    Boolean(bool),
    Date(String),
    List(Vec<TomlValue>),
    Table(Vec<TomlField>),
}

#[derive(Debug)]
pub struct TomlField {
    pub key: String,
    pub value: TomlValue,
}

/// What a value is.
#[verifier::ext_equal]
pub enum TomlView {
    Text(Seq<char>),
    Integer(i64),
    Float(Seq<char>),
    Boolean(bool),
    Date(Seq<char>),
    List(Seq<TomlView>),
    Table(Seq<(Seq<char>, TomlView)>),
}

pub open spec fn toml_view(value: TomlValue) -> TomlView
    decreases value,
{
    match value {
        TomlValue::Text(text) => TomlView::Text(text@),
        TomlValue::Integer(number) => TomlView::Integer(number),
        TomlValue::Float(text) => TomlView::Float(text@),
        TomlValue::Boolean(value) => TomlView::Boolean(value),
        TomlValue::Date(text) => TomlView::Date(text@),
        TomlValue::List(values) => TomlView::List(list_view(values@)),
        TomlValue::Table(fields) => TomlView::Table(table_view(fields@)),
    }
}

pub open spec fn list_view(values: Seq<TomlValue>) -> Seq<TomlView>
    decreases values,
{
    if values.len() == 0 {
        Seq::empty()
    } else {
        list_view(values.drop_last()).push(toml_view(values.last()))
    }
}

pub open spec fn table_view(fields: Seq<TomlField>) -> Seq<(Seq<char>, TomlView)>
    decreases fields,
{
    if fields.len() == 0 {
        Seq::empty()
    } else {
        table_view(fields.drop_last()).push((fields.last().key@, toml_view(fields.last().value)))
    }
}

/// A character in a string literal.
pub open spec fn escaped_char(c: char) -> Seq<char> {
    if c == '"' {
        seq!['\\', '"']
    } else if c == '\r' {
        seq!['\\', 'r']
    } else if c == '\n' {
        seq!['\\', 'n']
    } else if c == '\t' {
        seq!['\\', 't']
    } else if c == '\\' {
        seq!['\\', '\\']
    } else {
        seq![c]
    }
}

/// A text in a string literal.
pub open spec fn escaped(text: Seq<char>) -> Seq<char>
    decreases text.len(),
{
    if text.len() == 0 {
        Seq::empty()
    } else {
        escaped(text.drop_last()) + escaped_char(text.last())
    }
}

/// A string literal.
pub open spec fn literal(text: Seq<char>) -> Seq<char> {
    seq!['"'] + escaped(text) + seq!['"']
}

/// What an escape stands for.
pub open spec fn unescaped_char(c: char) -> Option<char> {
    if c == '"' {
        Some('"')
    } else if c == 'r' {
        Some('\r')
    } else if c == 'n' {
        Some('\n')
    } else if c == 't' {
        Some('\t')
    } else if c == '\\' {
        Some('\\')
    } else {
        None
    }
}

/// What the inside of a string literal stands for.
pub open spec fn unescaped(inside: Seq<char>) -> Option<Seq<char>>
    decreases inside.len(),
{
    if inside.len() == 0 {
        Some(Seq::empty())
    } else if inside[0] == '\\' {
        if inside.len() < 2 {
            None
        } else {
            match (unescaped_char(inside[1]), unescaped(inside.skip(2))) {
                (Some(c), Some(rest)) => Some(seq![c] + rest),
                _ => None,
            }
        }
    } else if inside[0] == '"' {
        None
    } else {
        match unescaped(inside.skip(1)) {
            Some(rest) => Some(seq![inside[0]] + rest),
            None => None,
        }
    }
}

proof fn lemma_unescaped_after(inside: Seq<char>, c: char)
    requires
        unescaped(inside) is Some,
    ensures
        unescaped(inside + escaped_char(c)) == Some(unescaped(inside)->0.push(c)),
    decreases inside.len(),
{
    let whole = inside + escaped_char(c);
    if inside.len() == 0 {
        reveal_with_fuel(unescaped, 3);
        assert(whole =~= escaped_char(c));
        if escaped_char(c).len() == 2 {
            assert(whole.skip(2) =~= Seq::empty());
        } else {
            assert(whole.skip(1) =~= Seq::empty());
        }
        assert(unescaped(inside)->0.push(c) =~= seq![c]);
        assert(seq![c] + Seq::<char>::empty() =~= seq![c]);
    } else if inside[0] == '\\' {
        lemma_unescaped_after(inside.skip(2), c);
        assert(whole.skip(2) =~= inside.skip(2) + escaped_char(c));
        let head = seq![unescaped_char(inside[1])->0];
        assert(head + unescaped(inside.skip(2))->0.push(c) =~= (head + unescaped(inside.skip(2))->0).push(c));
    } else {
        lemma_unescaped_after(inside.skip(1), c);
        assert(whole.skip(1) =~= inside.skip(1) + escaped_char(c));
        let head = seq![inside[0]];
        assert(head + unescaped(inside.skip(1))->0.push(c) =~= (head + unescaped(inside.skip(1))->0).push(c));
    }
}

/// A string literal stands for the text that it was written for.
pub proof fn law_literals_stand_for_their_text(text: Seq<char>)
    ensures
        unescaped(escaped(text)) == Some(text),
    decreases text.len(),
{
    if text.len() == 0 {
        assert(text =~= Seq::empty());
    } else {
        law_literals_stand_for_their_text(text.drop_last());
        lemma_unescaped_after(escaped(text.drop_last()), text.last());
        assert(text.drop_last().push(text.last()) =~= text);
    }
}

fn write_lua_string(value: &str, output: &mut String)
    ensures
        final(output)@ == old(output)@ + literal(value@),
{
    let ghost given = output@;
    output.push('"');
    let chars: Vec<char> = chars_of(value);
    let mut at: usize = 0;
    proof {
        assert(chars@.take(0) =~= Seq::empty());
        assert(given + (seq!['"'] + escaped(chars@.take(0))) =~= given.push('"'));
    }
    while at < chars.len()
        invariant
            at <= chars@.len(),
            chars@ == value@,
            output@ == given + (seq!['"'] + escaped(chars@.take(at as int))),
        decreases chars@.len() - at,
    {
        let c: char = chars[at];
        let ghost before = escaped(chars@.take(at as int));
        if c == '"' {
            output.push('\\');
            output.push('"');
        } else if c == '\r' {
            output.push('\\');
            output.push('r');
        } else if c == '\n' {
            output.push('\\');
            output.push('n');
        } else if c == '\t' {
            output.push('\\');
            output.push('t');
        } else if c == '\\' {
            output.push('\\');
            output.push('\\');
        } else {
            output.push(c);
        }
        proof {
            assert(chars@.take(at + 1).drop_last() =~= chars@.take(at as int));
            assert(chars@.take(at + 1).last() == c);
            assert(output@ =~= given + (seq!['"'] + (before + escaped_char(c))));
        }
        at = at + 1;
    }
    output.push('"');
    proof {
        assert(chars@.take(chars@.len() as int) =~= value@);
        assert(output@ =~= given + literal(value@));
    }
}

/// A word that Lua keeps for itself.
pub open spec fn is_reserved(word: Seq<char>) -> bool {
    word == "and"@ || word == "break"@ || word == "do"@ || word == "else"@ || word == "elseif"@ || word == "end"@ || word
        == "false"@ || word == "for"@ || word == "function"@ || word == "if"@ || word == "in"@ || word == "local"@ || word
        == "nil"@ || word == "not"@ || word == "or"@ || word == "repeat"@ || word == "return"@ || word == "then"@ || word
        == "true"@ || word == "until"@ || word == "while"@
}

/// A character of a name in Lua, by its place.
pub open spec fn is_name_char(c: char, at: int) -> bool {
    ('a' <= c && c <= 'z') || ('A' <= c && c <= 'Z') || c == '_' || (at > 0 && '0' <= c && c <= '9')
}

/// A name in Lua.
pub open spec fn is_identifier(text: Seq<char>) -> bool {
    !is_reserved(text) && text.len() > 0 && forall|k: int| 0 <= k < text.len() ==> is_name_char(#[trigger] text[k], k)
}

fn is_word(value: &str) -> (is: bool)
    ensures
        is == is_reserved(value@),
{
    value.eq("and") || value.eq("break") || value.eq("do") || value.eq("else") || value.eq("elseif") || value.eq("end")
        || value.eq("false") || value.eq("for") || value.eq("function") || value.eq("if") || value.eq("in") || value.eq(
        "local",
    ) || value.eq("nil") || value.eq("not") || value.eq("or") || value.eq("repeat") || value.eq("return") || value.eq(
        "then",
    ) || value.eq("true") || value.eq("until") || value.eq("while")
}

/// A name in Lua.
pub fn is_lua_identifier(value: &str) -> (is: bool)
    ensures
        is == is_identifier(value@),
{
    if is_word(value) {
        return false;
    }
    let chars: Vec<char> = chars_of(value);
    if chars.len() == 0 {
        return false;
    }
    let mut at: usize = 0;
    while at < chars.len()
        invariant
            at <= chars@.len(),
            chars@ == value@,
            forall|k: int| 0 <= k < at ==> is_name_char(#[trigger] chars@[k], k),
        decreases chars@.len() - at,
    {
        let c: char = chars[at];
        if !(('a' <= c && c <= 'z') || ('A' <= c && c <= 'Z') || c == '_' || (at > 0 && '0' <= c && c <= '9')) {
            proof {
                assert(!is_name_char(chars@[at as int], at as int));
            }
            return false;
        }
        at = at + 1;
    }
    true
}

/// The key of a field.
pub open spec fn key_text(key: Seq<char>) -> Seq<char> {
    if is_identifier(key) {
        key
    } else {
        seq!['['] + literal(key) + seq![']']
    }
}

/// The digits by which the number in floating point that is nearest to a whole number is
/// shown.
pub uninterp spec fn rounded_digits(number: i64) -> Seq<char>;

/// `serde_json::Number::as_f64`, shown in decimal: the digits are a function of the whole
/// number alone.
#[verifier::external_body]
fn round_number(number: i64) -> (text: String)
    ensures
        text@ == rounded_digits(number),
{
    serde_json::Number::from(number).as_f64().map(|nearest| nearest.to_string()).unwrap_or_default()
}

/// A whole number in Lua, where numbers are in floating point: one of at most 2^53 stands
/// for itself.
pub open spec fn integer_text(number: i64) -> Seq<char> {
    if 0 <= number <= 0x20_0000_0000_0000 {
        decimal(number as nat)
    } else if -0x20_0000_0000_0000 <= number < 0 {
        seq!['-'] + decimal((-number) as nat)
    } else {
        rounded_digits(number)
    }
}

/// A number in floating point in Lua, by how it is shown.
pub open spec fn float_text(shown: Seq<char>) -> Seq<char> {
    if shown == "NaN"@ {
        "0/0"@
    } else if shown == "inf"@ {
        "math.huge"@
    } else if shown == "-inf"@ {
        "-math.huge"@
    } else {
        shown
    }
}

/// A value in Lua, below an indentation.
pub open spec fn toml_text(value: TomlView, indent: Seq<char>) -> Seq<char>
    decreases value,
{
    match value {
        TomlView::Text(text) => literal(text),
        TomlView::Integer(number) => integer_text(number),
        TomlView::Float(text) => float_text(text),
        TomlView::Boolean(true) => "true"@,
        TomlView::Boolean(false) => "false"@,
        TomlView::Date(text) => literal(text),
        TomlView::List(values) => seq!['{'] + list_text(values, indent) + seq!['}'],
        TomlView::Table(fields) => "{\n"@ + fields_text(fields, indent.push('\t')) + indent + seq!['}'],
    }
}

/// The values of a list.
pub open spec fn list_text(values: Seq<TomlView>, indent: Seq<char>) -> Seq<char>
    decreases values,
{
    if values.len() == 0 {
        Seq::empty()
    } else {
        let before = list_text(values.drop_last(), indent);
        let last = toml_text(values.last(), indent);
        if values.len() == 1 {
            before + last
        } else {
            before + ", "@ + last
        }
    }
}

/// The fields of a table.
pub open spec fn fields_text(fields: Seq<(Seq<char>, TomlView)>, indent: Seq<char>) -> Seq<char>
    decreases fields,
{
    if fields.len() == 0 {
        Seq::empty()
    } else {
        fields_text(fields.drop_last(), indent) + indent + key_text(fields.last().0) + " = "@ + toml_text(
            fields.last().1,
            indent,
        ) + ",\n"@
    }
}

fn write_lua_table_key(key: &str, output: &mut String)
    ensures
        final(output)@ == old(output)@ + key_text(key@),
{
    let ghost given = output@;
    if is_lua_identifier(key) {
        output.append(key);
    } else {
        output.push('[');
        write_lua_string(key, output);
        output.push(']');
        proof {
            assert(output@ =~= given + key_text(key@));
        }
    }
}

fn write_integer(number: i64, output: &mut String)
    ensures
        final(output)@ == old(output)@ + integer_text(number),
{
    let ghost given = output@;
    if 0 <= number && number <= 0x20_0000_0000_0000 {
        output.append(decimal_text(number as u64).as_str());
    } else if -0x20_0000_0000_0000 <= number && number < 0 {
        output.push('-');
        output.append(decimal_text((-number) as u64).as_str());
        proof {
            assert(output@ =~= given + integer_text(number));
        }
    } else {
        output.append(round_number(number).as_str());
    }
}

fn write_lua_number(shown: &str, output: &mut String)
    ensures
        final(output)@ == old(output)@ + float_text(shown@),
{
    if shown.eq("NaN") {
        output.append("0/0");
    } else if shown.eq("inf") {
        output.append("math.huge");
    } else if shown.eq("-inf") {
        output.append("-math.huge");
    } else {
        output.append(shown);
    }
}

fn write_toml_lua_value(value: &TomlValue, indent: &str, output: &mut String)
    ensures
        final(output)@ == old(output)@ + toml_text(toml_view(*value), indent@),
    decreases value,
{
    let ghost given = output@;
    match value {
        TomlValue::Text(text) => {
            write_lua_string(text.as_str(), output);
        },
        TomlValue::Integer(number) => {
            write_integer(*number, output);
        },
        TomlValue::Float(text) => {
            write_lua_number(text.as_str(), output);
        },
        TomlValue::Boolean(value) => {
            if *value {
                output.append("true");
            } else {
                output.append("false");
            }
        },
        TomlValue::Date(text) => {
            write_lua_string(text.as_str(), output);
        },
        TomlValue::List(values) => {
            output.push('{');
            let mut at: usize = 0;
            proof {
                assert(values@.take(0) =~= Seq::empty());
                assert(given + (seq!['{'] + list_text(list_view(values@.take(0)), indent@)) =~= given.push('{'));
            }
            while at < values.len()
                invariant
                    at <= values@.len(),
                    *value == TomlValue::List(*values),
                    output@ == given + (seq!['{'] + list_text(list_view(values@.take(at as int)), indent@)),
                decreases values@.len() - at,
            {
                let ghost before = list_view(values@.take(at as int));
                let ghost next = list_view(values@.take(at + 1));
                proof {
                    assert(decreases_to!(*value => value->List_0));
                    assert(decreases_to!(value->List_0@ => values@[at as int]));
                    lemma_list_view(values@.take(at as int));
                    assert(values@.take(at + 1).drop_last() =~= values@.take(at as int));
                    assert(next =~= before.push(toml_view(values@[at as int])));
                    assert(next.drop_last() =~= before);
                }
                if at > 0 {
                    output.append(", ");
                }
                write_toml_lua_value(&values[at], indent, output);
                proof {
                    assert(output@ =~= given + (seq!['{'] + list_text(next, indent@)));
                }
                at = at + 1;
            }
            output.push('}');
            proof {
                assert(values@.take(values@.len() as int) =~= values@);
                assert(output@ =~= given + toml_text(toml_view(*value), indent@));
            }
        },
        TomlValue::Table(fields) => {
            output.append("{\n");
            let mut deeper: String = indent.to_owned();
            deeper.push('\t');
            let mut at: usize = 0;
            proof {
                assert(fields@.take(0) =~= Seq::empty());
                assert(given + ("{\n"@ + fields_text(table_view(fields@.take(0)), deeper@)) =~= given + "{\n"@);
            }
            while at < fields.len()
                invariant
                    at <= fields@.len(),
                    *value == TomlValue::Table(*fields),
                    deeper@ == indent@.push('\t'),
                    output@ == given + ("{\n"@ + fields_text(table_view(fields@.take(at as int)), deeper@)),
                decreases fields@.len() - at,
            {
                let ghost before = table_view(fields@.take(at as int));
                let ghost next = table_view(fields@.take(at + 1));
                proof {
                    assert(decreases_to!(*value => value->Table_0));
                    assert(decreases_to!(value->Table_0@ => fields@[at as int]));
                    assert(decreases_to!(fields@[at as int] => fields@[at as int].value));
                    assert(fields@.take(at + 1).drop_last() =~= fields@.take(at as int));
                    assert(next =~= before.push((fields@[at as int].key@, toml_view(fields@[at as int].value))));
                    assert(next.drop_last() =~= before);
                }
                output.append(deeper.as_str());
                write_lua_table_key(fields[at].key.as_str(), output);
                output.append(" = ");
                write_toml_lua_value(&fields[at].value, deeper.as_str(), output);
                output.append(",\n");
                proof {
                    assert(output@ =~= given + ("{\n"@ + fields_text(next, deeper@)));
                }
                at = at + 1;
            }
            output.append(indent);
            output.push('}');
            proof {
                assert(fields@.take(fields@.len() as int) =~= fields@);
                assert(output@ =~= given + toml_text(toml_view(*value), indent@));
            }
        },
    }
}

proof fn lemma_list_view(values: Seq<TomlValue>)
    ensures
        list_view(values).len() == values.len(),
    decreases values.len(),
{
    if values.len() > 0 {
        lemma_list_view(values.drop_last());
    }
}

/// The source of the module that returns a value.
pub open spec fn module_text(value: TomlView) -> Seq<char> {
    "return "@ + toml_text(value, Seq::empty())
}

/// Writes the source of the module that returns a value.
pub fn toml_module_source(value: &TomlValue) -> (source: String)
    ensures
        source@ == module_text(toml_view(*value)),
{
    let mut source: String = "return ".to_owned();
    let indent: String = String::new();
    proof {
        assert(indent@ =~= Seq::empty());
    }
    write_toml_lua_value(value, indent.as_str(), &mut source);
    source
}

// ---------------------------------------------------------------------------
// Reading

/// `toml::Value`, opaque to the proofs: what it holds is taken over when it is converted.
#[verifier::external_type_specification]
#[verifier::external_body]
pub struct ExTomlValue(toml::Value);

/// What a TOML document is, or why it is none.
pub uninterp spec fn toml_parsed(text: Seq<char>) -> Result<TomlView, Seq<char>>;

/// A `toml::Value` in the form that the library holds, variant by variant. Numbers in
/// floating point and dates become the text that they are shown as. Nothing is claimed of
/// it alone.
#[verifier::external_body]
fn convert(value: toml::Value) -> (converted: TomlValue) {
    match value {
        toml::Value::String(text) => TomlValue::Text(text),
        toml::Value::Integer(number) => TomlValue::Integer(number),
        toml::Value::Float(number) => TomlValue::Float(number.to_string()),
        toml::Value::Boolean(value) => TomlValue::Boolean(value),
        toml::Value::Datetime(date) => TomlValue::Date(date.to_string()),
        toml::Value::Array(list) => TomlValue::List(list.into_iter().map(convert).collect()),
        toml::Value::Table(fields) => TomlValue::Table(
            fields.into_iter().map(|(key, value)| TomlField { key, value: convert(value) }).collect(),
        ),
    }
}

/// `toml::from_str` into a `toml::Value`: the value, or the text of the error, is a
/// function of the text alone.
#[verifier::external_body]
fn read_toml(text: &str) -> (read: Result<TomlValue, String>)
    ensures
        match toml_parsed(text@) {
            Ok(view) => read matches Ok(value) && toml_view(value) == view,
            Err(reason) => read matches Err(found) && found@ == reason,
        },
{
    match toml::from_str::<toml::Value>(text) {
        Ok(value) => Ok(convert(value)),
        Err(error) => Err(error.to_string()),
    }
}

/// The source of the module that a TOML file stands for, or why it stands for none.
pub open spec fn toml_module(path: Seq<char>, text: Seq<char>) -> Result<Seq<char>, Seq<char>> {
    match toml_parsed(text) {
        Ok(value) => Ok(module_text(value)),
        Err(reason) => Err("failed to parse TOML module "@ + path + ": "@ + reason),
    }
}

/// The source that a script file stands for: a TOML file the module that returns its
/// value, another file its text.
pub open spec fn source_of_file(file: Seq<char>, path: Seq<char>, text: Seq<char>) -> Result<Seq<char>, Seq<char>> {
    if ".toml"@.is_suffix_of(file) {
        toml_module(path, text)
    } else {
        Ok(text)
    }
}

/// Reads the source of a script from the text of its file.
pub fn read_script_source(file_name: &str, path: &str, text: String) -> (source: Result<String, SourceError>)
    ensures
        match source_of_file(file_name@, path@, text@) {
            Ok(expected) => source matches Ok(source) && source@ == expected,
            Err(reason) => source matches Err(error) && error.message@ == reason,
        },
{
    if !ends_with(file_name, ".toml") {
        return Ok(text);
    }
    match read_toml(text.as_str()) {
        Ok(value) => Ok(toml_module_source(&value)),
        Err(reason) => {
            let mut message: String = joined("failed to parse TOML module ", path);
            message.append(": ");
            message.append(reason.as_str());
            Err(refused(message))
        },
    }
}

} // verus!
