use vstd::prelude::*;

use crate::literal::{int_of_text, is_float_literal, is_float_text, is_int_literal};
use crate::text::{chars_of, push_str, signed_decimal, string_from_chars};

verus! {

/// Describes the layout of a loaded settings file line by line.
#[derive(Debug, Clone, PartialEq, Eq, PartialOrd, Ord, Hash)]
pub enum LayoutEntry {
    /// Empty line
    Empty,
    /// Key-value pair; the value lives in the values map
    Key(String),
    /// Comment, its lines joined by `\n`
    Comment(String),
}

/// Mathematical form of a [`LayoutEntry`].
pub enum EntryView {
    Empty,
    Key(Seq<char>),
    Comment(Seq<char>),
}

impl View for LayoutEntry {
    type V = EntryView;

    open spec fn view(&self) -> EntryView {
        match self {
            LayoutEntry::Empty => EntryView::Empty,
            LayoutEntry::Key(k) => EntryView::Key(k@),
            LayoutEntry::Comment(c) => EntryView::Comment(c@),
        }
    }
}

/// Represents a setting value.
///
/// A float is held as the decimal literal that stands for it (`"3.5"`), so
/// that it is written back exactly as it was read.
#[derive(Debug, Clone, PartialEq, PartialOrd)]
pub enum Value {
    /// Intentionally empty value
    Empty,
    /// Int value
    I64(i64),
    /// Float value, as its decimal literal
    F64(String),
    /// Bool value
    Bool(bool),
    /// String value, can be any number of lines
    String(String),
}

/// Mathematical form of a [`Value`].
pub enum ValueView {
    Empty,
    I64(i64),
    F64(Seq<char>),
    Bool(bool),
    String(Seq<char>),
}

impl View for Value {
    type V = ValueView;

    open spec fn view(&self) -> ValueView {
        match self {
            Value::Empty => ValueView::Empty,
            Value::I64(n) => ValueView::I64(*n),
            Value::F64(t) => ValueView::F64(t@),
            Value::Bool(b) => ValueView::Bool(*b),
            Value::String(s) => ValueView::String(s@),
        }
    }
}

pub open spec fn word_empty() -> Seq<char> {
    seq!['e', 'm', 'p', 't', 'y']
}

pub open spec fn word_true() -> Seq<char> {
    seq!['t', 'r', 'u', 'e']
}

pub open spec fn word_false() -> Seq<char> {
    seq!['f', 'a', 'l', 's', 'e']
}

/// The body of a multi-line string: a `"` opens every line after a `\n`.
pub open spec fn quote_lines(s: Seq<char>) -> Seq<char>
    decreases s.len(),
{
    if s.len() == 0 {
        Seq::empty()
    } else if s.last() == '\n' {
        quote_lines(s.drop_last()) + seq!['\n', '"']
    } else {
        quote_lines(s.drop_last()).push(s.last())
    }
}

/// How a value is written in a settings file.
pub open spec fn render_value(v: ValueView) -> Seq<char> {
    match v {
        ValueView::Empty => word_empty(),
        ValueView::I64(n) => signed_decimal(n as int),
        ValueView::F64(t) => t,
        ValueView::Bool(b) => if b {
            word_true()
        } else {
            word_false()
        },
        ValueView::String(s) => if s.contains('\n') {
            seq!['"', '\n', '"'] + quote_lines(s)
        } else {
            seq!['"'] + s + seq!['"']
        },
    }
}

/// Name of a value's kind, as used in retrieval errors.
pub open spec fn kind_name(v: ValueView) -> Seq<char> {
    match v {
        ValueView::Empty => "Empty"@,
        ValueView::I64(_) => "Int"@,
        ValueView::F64(_) => "Float"@,
        ValueView::Bool(_) => "Bool"@,
        ValueView::String(_) => "String"@,
    }
}

/// Name of a value's kind with its article.
pub open spec fn singular_kind_name(v: ValueView) -> Seq<char> {
    match v {
        ValueView::Empty => "an Empty"@,
        ValueView::I64(_) => "an Int"@,
        ValueView::F64(_) => "a Float"@,
        ValueView::Bool(_) => "a Bool"@,
        ValueView::String(_) => "a String"@,
    }
}

/// Appends the decimal digits of `n`.
pub fn push_decimal(out: &mut Vec<char>, n: u64)
    ensures
        final(out)@ == old(out)@ + crate::text::decimal(n as nat),
    decreases n,
{
    if n >= 10 {
        push_decimal(out, n / 10);
    }
    let d = ((n % 10) as u32 + '0' as u32) as u8 as char;
    out.push(d);
    proof {
        assert(d == crate::text::digit_char((n % 10) as nat));
    }
}

/// Appends the decimal text of `n`, with a `-` when it is negative.
pub fn push_signed_decimal(out: &mut Vec<char>, n: i64)
    ensures
        final(out)@ == old(out)@ + signed_decimal(n as int),
{
    if n < 0 {
        out.push('-');
        let m: u64 = if n == i64::MIN {
            9223372036854775808u64
        } else {
            (-n) as u64
        };
        push_decimal(out, m);
        assert(out@ =~= old(out)@ + signed_decimal(n as int));
    } else {
        push_decimal(out, n as u64);
    }
}

/// Appends `s` with a `"` after each `\n`.
fn push_quoted_lines(out: &mut Vec<char>, s: &Vec<char>)
    ensures
        final(out)@ == old(out)@ + quote_lines(s@),
{
    let mut i: usize = 0;
    while i < s.len()
        invariant
            i <= s@.len(),
            out@ == old(out)@ + quote_lines(s@.take(i as int)),
        decreases s@.len() - i,
    {
        let c = s[i];
        if c == '\n' {
            out.push('\n');
            out.push('"');
        } else {
            out.push(c);
        }
        i += 1;
        assert(s@.take(i as int).drop_last() =~= s@.take(i - 1));
        assert(out@ =~= old(out)@ + quote_lines(s@.take(i as int)));
    }
    assert(s@.take(s@.len() as int) =~= s@);
}

fn contains_newline(s: &Vec<char>) -> (r: bool)
    ensures
        r == s@.contains('\n'),
{
    let mut i: usize = 0;
    while i < s.len()
        invariant
            i <= s@.len(),
            forall|k: int| 0 <= k < i ==> s@[k] != '\n',
        decreases s@.len() - i,
    {
        if s[i] == '\n' {
            return true;
        }
        i += 1;
    }
    false
}

pub fn clone_value(v: &Value) -> (r: Value)
    ensures
        r@ == v@,
{
    match v {
        Value::Empty => Value::Empty,
        Value::I64(n) => Value::I64(*n),
        Value::F64(t) => Value::F64(t.clone()),
        Value::Bool(b) => Value::Bool(*b),
        Value::String(s) => Value::String(s.clone()),
    }
}

impl Value {
    /// Appends the text of this value as it is written in a settings file.
    pub fn push_formatted(&self, out: &mut Vec<char>)
        ensures
            final(out)@ == old(out)@ + render_value(self@),
    {
        match self {
            Value::Empty => {
                out.push('e');
                out.push('m');
                out.push('p');
                out.push('t');
                out.push('y');
                assert(out@ =~= old(out)@ + word_empty());
            },
            Value::I64(n) => {
                push_signed_decimal(out, *n);
            },
            Value::F64(t) => {
                push_str(out, t.as_str());
            },
            Value::Bool(b) => {
                if *b {
                    out.push('t');
                    out.push('r');
                    out.push('u');
                    out.push('e');
                    assert(out@ =~= old(out)@ + word_true());
                } else {
                    out.push('f');
                    out.push('a');
                    out.push('l');
                    out.push('s');
                    out.push('e');
                    assert(out@ =~= old(out)@ + word_false());
                }
            },
            Value::String(s) => {
                let cs = chars_of(s.as_str());
                if contains_newline(&cs) {
                    out.push('"');
                    out.push('\n');
                    out.push('"');
                    push_quoted_lines(out, &cs);
                    assert(out@ =~= old(out)@ + render_value(self@));
                } else {
                    out.push('"');
                    crate::text::push_all(out, &cs);
                    out.push('"');
                    assert(out@ =~= old(out)@ + render_value(self@));
                }
            },
        }
    }

    /// A float value for a decimal literal: digits, an optional fraction and
    /// an optional exponent, and not a literal that reads as an int. Any other
    /// text gives `None`.
    pub fn from_float_literal(text: &str) -> (r: Option<Value>)
        ensures
            match r {
                Some(v) => is_float_literal(text@) && !is_int_literal(text@) && v@ == ValueView::F64(
                    text@,
                ),
                None => !(is_float_literal(text@) && !is_int_literal(text@)),
            },
    {
        let cs = chars_of(text);
        if is_float_text(&cs) && int_of_text(&cs).is_none() {
            Some(Value::F64(text.to_owned()))
        } else {
            None
        }
    }

    /// The text of this value as it is written in a settings file.
    pub fn format(&self) -> (r: String)
        ensures
            r@ == render_value(self@),
    {
        let mut out: Vec<char> = Vec::new();
        self.push_formatted(&mut out);
        assert(out@ =~= render_value(self@));
        string_from_chars(&out)
    }

    /// Returns "Empty", "String", "Int", "Float", or "Bool" according to the variant.
    pub fn type_as_string(&self) -> (r: &'static str)
        ensures
            r@ == kind_name(self@),
    {
        match self {
            Value::Empty => "Empty",
            Value::I64(_) => "Int",
            Value::F64(_) => "Float",
            Value::Bool(_) => "Bool",
            Value::String(_) => "String",
        }
    }

    /// Returns "an Empty", "a String", "an Int", "a Float", or "a Bool" according to the variant.
    pub fn type_as_singular_string(&self) -> (r: &'static str)
        ensures
            r@ == singular_kind_name(self@),
    {
        match self {
            Value::Empty => "an Empty",
            Value::I64(_) => "an Int",
            Value::F64(_) => "a Float",
            Value::Bool(_) => "a Bool",
            Value::String(_) => "a String",
        }
    }
}

} // verus!
