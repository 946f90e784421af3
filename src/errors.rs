use vstd::prelude::*;

use crate::data::push_decimal;
use crate::text::{decimal, push_str, string_from_chars};

verus! {

/// Errors while parsing settings.
#[derive(Debug, Clone, PartialEq, Eq, PartialOrd, Ord, Hash)]
pub struct ParseEntryError {
    /// Line number of the invalid entry (1-based)
    pub line: usize,
    /// Why the entry is invalid
    pub message: String,
}

impl View for ParseEntryError {
    type V = (nat, Seq<char>);

    open spec fn view(&self) -> (nat, Seq<char>) {
        (self.line as nat, self.message@)
    }
}

impl ParseEntryError {
    /// An error for the line at 0-based index `raw_line`.
    pub fn new(raw_line: usize, message: String) -> (r: Self)
        requires
            raw_line < usize::MAX,
        ensures
            r@ == ((raw_line + 1) as nat, message@),
    {
        ParseEntryError { line: raw_line + 1, message }
    }

    /// A sentence describing the error.
    pub fn describe(&self) -> (r: String)
        ensures
            r@ == "Invalid configuration entry at line "@ + decimal(self.line as nat) + ": "@
                + self.message@,
    {
        let mut out: Vec<char> = Vec::new();
        push_str(&mut out, "Invalid configuration entry at line ");
        push_decimal(&mut out, self.line as u64);
        push_str(&mut out, ": ");
        push_str(&mut out, self.message.as_str());
        string_from_chars(&out)
    }
}

/// Errors while formatting settings: a key of the layout has no value.
#[derive(Debug, Clone, PartialEq, Eq, PartialOrd, Ord, Hash)]
pub struct FormatEntryError {
    /// Name of the missing key
    pub missing_key: String,
}

impl FormatEntryError {
    pub fn new(missing_key: &str) -> (r: Self)
        ensures
            r.missing_key@ == missing_key@,
    {
        FormatEntryError { missing_key: missing_key.to_owned() }
    }

    /// A sentence describing the error.
    pub fn describe(&self) -> (r: String)
        ensures
            r@ == "Failed to format configuration entry, no value found for key "@
                + self.missing_key@,
    {
        let mut out: Vec<char> = Vec::new();
        push_str(&mut out, "Failed to format configuration entry, no value found for key ");
        push_str(&mut out, self.missing_key.as_str());
        string_from_chars(&out)
    }
}

/// Errors when trying to retrieve settings.
#[derive(Debug, Clone, PartialEq, Eq, PartialOrd, Ord, Hash)]
pub enum RetrieveSettingError {
    /// The queried key does not exist
    Missing {
        /// The key that was queried
        key: String,
    },
    /// The value is of another kind than the one asked for
    WrongSingularType {
        /// The key that was queried
        key: String,
        /// The kind that was asked for
        expected: String,
        /// The kind that was found
        encountered: String,
    },
    /// The value is of none of the kinds asked for
    WrongMultipleType {
        /// The key that was queried
        key: String,
        /// The kinds that were accepted
        expected: Vec<String>,
        /// The kind that was found
        encountered: String,
    },
}

/// Mathematical form of a [`RetrieveSettingError`].
pub enum RetrieveErrorView {
    Missing(Seq<char>),
    WrongSingularType(Seq<char>, Seq<char>, Seq<char>),
    WrongMultipleType(Seq<char>, Seq<Seq<char>>, Seq<char>),
}

impl View for RetrieveSettingError {
    type V = RetrieveErrorView;

    open spec fn view(&self) -> RetrieveErrorView {
        match self {
            RetrieveSettingError::Missing { key } => RetrieveErrorView::Missing(key@),
            RetrieveSettingError::WrongSingularType { key, expected, encountered } =>
                RetrieveErrorView::WrongSingularType(key@, expected@, encountered@),
            RetrieveSettingError::WrongMultipleType { key, expected, encountered } =>
                RetrieveErrorView::WrongMultipleType(
                key@,
                expected@.map_values(|e: String| e@),
                encountered@,
            ),
        }
    }
}

/// Each name followed by `", "`.
pub open spec fn comma_list(names: Seq<Seq<char>>) -> Seq<char>
    decreases names.len(),
{
    if names.len() == 0 {
        Seq::empty()
    } else {
        comma_list(names.drop_last()) + names.last() + ", "@
    }
}

/// `a`, `a or b`, or `a, b, or c` for longer lists.
pub open spec fn alternatives(names: Seq<Seq<char>>) -> Seq<char> {
    if names.len() == 1 {
        names[0]
    } else if names.len() == 2 {
        names[0] + " or "@ + names[1]
    } else {
        comma_list(names.drop_last()) + "or "@ + names.last()
    }
}

pub open spec fn retrieve_message(e: RetrieveErrorView) -> Seq<char> {
    match e {
        RetrieveErrorView::Missing(k) => "Setting '"@ + k + "' does not exist"@,
        RetrieveErrorView::WrongSingularType(k, x, f) => "Setting '"@ + k
            + "' was expected to be of type '"@ + x + "', but is of type '"@ + f + "'"@,
        RetrieveErrorView::WrongMultipleType(k, xs, f) => "Setting '"@ + k
            + "' was expected to be of type "@ + alternatives(xs) + " but found type '"@ + f
            + "'"@,
    }
}

impl RetrieveSettingError {
    pub fn new_missing(key: &str) -> (r: Self)
        ensures
            r@ == RetrieveErrorView::Missing(key@),
    {
        RetrieveSettingError::Missing { key: key.to_owned() }
    }

    pub fn new_wrong_singular_type(key: &str, expected: &str, encountered: &str) -> (r: Self)
        ensures
            r@ == RetrieveErrorView::WrongSingularType(key@, expected@, encountered@),
    {
        RetrieveSettingError::WrongSingularType {
            key: key.to_owned(),
            expected: expected.to_owned(),
            encountered: encountered.to_owned(),
        }
    }

    pub fn new_wrong_multiple_type(key: &str, expected: Vec<String>, encountered: &str) -> (r:
        Self)
        ensures
            r@ == RetrieveErrorView::WrongMultipleType(
                key@,
                expected@.map_values(|e: String| e@),
                encountered@,
            ),
    {
        RetrieveSettingError::WrongMultipleType {
            key: key.to_owned(),
            expected,
            encountered: encountered.to_owned(),
        }
    }

    /// A sentence describing the error.
    pub fn describe(&self) -> (r: String)
        requires
            self@ is WrongMultipleType ==> self@->WrongMultipleType_1.len() > 0,
        ensures
            r@ == retrieve_message(self@),
    {
        let mut out: Vec<char> = Vec::new();
        match self {
            RetrieveSettingError::Missing { key } => {
                push_str(&mut out, "Setting '");
                push_str(&mut out, key.as_str());
                push_str(&mut out, "' does not exist");
            },
            RetrieveSettingError::WrongSingularType { key, expected, encountered } => {
                push_str(&mut out, "Setting '");
                push_str(&mut out, key.as_str());
                push_str(&mut out, "' was expected to be of type '");
                push_str(&mut out, expected.as_str());
                push_str(&mut out, "', but is of type '");
                push_str(&mut out, encountered.as_str());
                push_str(&mut out, "'");
            },
            RetrieveSettingError::WrongMultipleType { key, expected, encountered } => {
                let ghost names = expected@.map_values(|e: String| e@);
                push_str(&mut out, "Setting '");
                push_str(&mut out, key.as_str());
                push_str(&mut out, "' was expected to be of type ");
                let n = expected.len();
                if n == 1 {
                    push_str(&mut out, expected[0].as_str());
                } else if n == 2 {
                    push_str(&mut out, expected[0].as_str());
                    push_str(&mut out, " or ");
                    push_str(&mut out, expected[1].as_str());
                } else {
                    let ghost start = out@;
                    let mut i: usize = 0;
                    while i < n - 1
                        invariant
                            n == expected@.len(),
                            n >= 3,
                            i <= n - 1,
                            names == expected@.map_values(|e: String| e@),
                            out@ == start + comma_list(names.take(i as int)),
                        decreases n - 1 - i,
                    {
                        push_str(&mut out, expected[i].as_str());
                        push_str(&mut out, ", ");
                        i += 1;
                        assert(names.take(i as int).drop_last() =~= names.take(i - 1));
                    }
                    assert(names.take(n - 1) =~= names.drop_last());
                    push_str(&mut out, "or ");
                    push_str(&mut out, expected[n - 1].as_str());
                }
                push_str(&mut out, " but found type '");
                push_str(&mut out, encountered.as_str());
                push_str(&mut out, "'");
            },
        }
        string_from_chars(&out)
    }
}

} // verus!
