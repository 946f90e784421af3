use vstd::prelude::*;

use crate::data::{singular_kind_name, Value, ValueView};
use crate::text::{push_str, string_from_chars};
use crate::values::ValueMap;

verus! {

/// Message for a setting that does not exist.
pub open spec fn missing_message(name: Seq<char>) -> Seq<char> {
    "could not find setting \""@ + name + "\""@
}

/// Message for a setting of another kind than the one asked for.
pub open spec fn wrong_kind_message(name: Seq<char>, wanted: Seq<char>, found: ValueView) -> Seq<
    char,
> {
    "setting \""@ + name + "\" needs to be "@ + wanted + ", but it currently is "@
        + singular_kind_name(found)
}

fn missing(name: &str) -> (r: String)
    ensures
        r@ == missing_message(name@),
{
    let mut out: Vec<char> = Vec::new();
    push_str(&mut out, "could not find setting \"");
    push_str(&mut out, name);
    push_str(&mut out, "\"");
    string_from_chars(&out)
}

fn wrong_kind(name: &str, wanted: &str, found: &Value) -> (r: String)
    ensures
        r@ == wrong_kind_message(name@, wanted@, found@),
{
    let mut out: Vec<char> = Vec::new();
    push_str(&mut out, "setting \"");
    push_str(&mut out, name);
    push_str(&mut out, "\" needs to be ");
    push_str(&mut out, wanted);
    push_str(&mut out, ", but it currently is ");
    push_str(&mut out, found.type_as_singular_string());
    string_from_chars(&out)
}

/// The setting as a str, or a short message saying why it is not one.
pub fn get_str<'a>(setting_name: &str, settings: &'a ValueMap) -> (r: Result<&'a str, String>)
    ensures
        !settings@.contains_key(setting_name@) ==> r is Err && r->Err_0@ == missing_message(
            setting_name@,
        ),
        settings@.contains_key(setting_name@) ==> match settings@[setting_name@] {
            ValueView::String(x) => r is Ok && r->Ok_0@ == x,
            other => r is Err && r->Err_0@ == wrong_kind_message(setting_name@, "a String"@, other),
        },
{
    match settings.get(setting_name) {
        None => Err(missing(setting_name)),
        Some(Value::String(v)) => Ok(v.as_str()),
        Some(other) => Err(wrong_kind(setting_name, "a String", other)),
    }
}

/// The setting as a string to change in place, or a short message saying why it is not one.
pub fn get_string_mut<'a>(setting_name: &str, settings: &'a mut ValueMap) -> (r: Result<&'a mut String, String>)
    ensures
        !old(settings)@.contains_key(setting_name@) ==> r is Err && r->Err_0@ == missing_message(
            setting_name@,
        ),
        old(settings)@.contains_key(setting_name@) ==> match old(settings)@[setting_name@] {
            ValueView::String(_) => r is Ok,
            other => r is Err && r->Err_0@ == wrong_kind_message(setting_name@, "a String"@, other),
        },
        match r {
            Ok(p) => old(settings)@[setting_name@] == ValueView::String((*p)@)
                && final(settings)@ == old(settings)@.insert(
                setting_name@,
                ValueView::String((*final(p))@),
            ),
            Err(_) => final(settings)@ == old(settings)@,
        },
{
    match settings.get_mut(setting_name) {
        None => Err(missing(setting_name)),
        Some(value) => match value {
            Value::String(v) => Ok(v),
            other => Err(wrong_kind(setting_name, "a String", other)),
        },
    }
}

/// The setting as an int, or a short message saying why it is not one.
pub fn get_int(setting_name: &str, settings: &ValueMap) -> (r: Result<i64, String>)
    ensures
        !settings@.contains_key(setting_name@) ==> r is Err && r->Err_0@ == missing_message(
            setting_name@,
        ),
        settings@.contains_key(setting_name@) ==> match settings@[setting_name@] {
            ValueView::I64(x) => r == Ok::<i64, String>(x),
            other => r is Err && r->Err_0@ == wrong_kind_message(setting_name@, "an Int"@, other),
        },
{
    match settings.get(setting_name) {
        None => Err(missing(setting_name)),
        Some(Value::I64(v)) => Ok(*v),
        Some(other) => Err(wrong_kind(setting_name, "an Int", other)),
    }
}

/// The setting as an int to change in place, or a short message saying why it is not one.
pub fn get_int_mut<'a>(setting_name: &str, settings: &'a mut ValueMap) -> (r: Result<&'a mut i64, String>)
    ensures
        !old(settings)@.contains_key(setting_name@) ==> r is Err && r->Err_0@ == missing_message(
            setting_name@,
        ),
        old(settings)@.contains_key(setting_name@) ==> match old(settings)@[setting_name@] {
            ValueView::I64(_) => r is Ok,
            other => r is Err && r->Err_0@ == wrong_kind_message(setting_name@, "an Int"@, other),
        },
        match r {
            Ok(p) => old(settings)@[setting_name@] == ValueView::I64(*p)
                && final(settings)@ == old(settings)@.insert(
                setting_name@,
                ValueView::I64(*final(p)),
            ),
            Err(_) => final(settings)@ == old(settings)@,
        },
{
    match settings.get_mut(setting_name) {
        None => Err(missing(setting_name)),
        Some(value) => match value {
            Value::I64(v) => Ok(v),
            other => Err(wrong_kind(setting_name, "an Int", other)),
        },
    }
}

/// The setting as a bool, or a short message saying why it is not one.
pub fn get_bool(setting_name: &str, settings: &ValueMap) -> (r: Result<bool, String>)
    ensures
        !settings@.contains_key(setting_name@) ==> r is Err && r->Err_0@ == missing_message(
            setting_name@,
        ),
        settings@.contains_key(setting_name@) ==> match settings@[setting_name@] {
            ValueView::Bool(x) => r == Ok::<bool, String>(x),
            other => r is Err && r->Err_0@ == wrong_kind_message(setting_name@, "a Bool"@, other),
        },
{
    match settings.get(setting_name) {
        None => Err(missing(setting_name)),
        Some(Value::Bool(v)) => Ok(*v),
        Some(other) => Err(wrong_kind(setting_name, "a Bool", other)),
    }
}

/// The setting as a bool to change in place, or a short message saying why it is not one.
pub fn get_bool_mut<'a>(setting_name: &str, settings: &'a mut ValueMap) -> (r: Result<&'a mut bool, String>)
    ensures
        !old(settings)@.contains_key(setting_name@) ==> r is Err && r->Err_0@ == missing_message(
            setting_name@,
        ),
        old(settings)@.contains_key(setting_name@) ==> match old(settings)@[setting_name@] {
            ValueView::Bool(_) => r is Ok,
            other => r is Err && r->Err_0@ == wrong_kind_message(setting_name@, "a Bool"@, other),
        },
        match r {
            Ok(p) => old(settings)@[setting_name@] == ValueView::Bool(*p)
                && final(settings)@ == old(settings)@.insert(
                setting_name@,
                ValueView::Bool(*final(p)),
            ),
            Err(_) => final(settings)@ == old(settings)@,
        },
{
    match settings.get_mut(setting_name) {
        None => Err(missing(setting_name)),
        Some(value) => match value {
            Value::Bool(v) => Ok(v),
            other => Err(wrong_kind(setting_name, "a Bool", other)),
        },
    }
}

} // verus!
