use vstd::prelude::*;

use crate::data::{clone_value, kind_name, push_signed_decimal, LayoutEntry, Value, ValueView};
use crate::errors::{FormatEntryError, ParseEntryError, RetrieveErrorView, RetrieveSettingError};
use crate::formatter::{file_text, format_file, missing_keys};
use crate::parser::{
    errors_view, header_version, layout_view, lines_view, msg_no_version, parse_line,
    scan, scan_lines, split_into_lines, step, get_file_version, ScanState,
};
use crate::text::{signed_decimal, split_lines, string_from_chars, trim, trimmed};
use crate::values::ValueMap;

verus! {

/// Whether the updaters ran while a file was read.
pub type DidRunUpdaters = bool;

/// A file's contents, layout, and version.
pub struct File {
    /// Contents of the file
    pub values: ValueMap,
    /// Layout of the file, one entry per line or block
    pub layout: Vec<LayoutEntry>,
    /// Version of the file's format
    pub version: usize,
}

/// The lines of a text and what scanning them gives.
pub open spec fn parsed_state(text: Seq<char>) -> ScanState {
    scan_lines(split_lines(text))
}

/// The version that the first line of a text declares.
pub open spec fn declared_version(text: Seq<char>) -> Option<nat> {
    header_version(trim(split_lines(text)[0]))
}

/// The declared version, where it is one (versions start at 1).
pub open spec fn usable_version(text: Seq<char>) -> Option<nat> {
    match declared_version(text) {
        Some(n) => if n >= 1 {
            Some(n)
        } else {
            None
        },
        None => None,
    }
}

/// Errors of a parse: those of the lines, then the one for a header that is
/// missing or declares no usable version.
pub open spec fn parse_errors(text: Seq<char>) -> Seq<(nat, Seq<char>)> {
    match usable_version(text) {
        Some(_) => parsed_state(text).errors,
        None => parsed_state(text).errors.push((1, msg_no_version())),
    }
}

/// The first updater that runs for a declared version, if any runs.
pub open spec fn first_updater(text: Seq<char>, count: nat) -> Option<nat> {
    match usable_version(text) {
        Some(n) => if n - 1 < count {
            Some((n - 1) as nat)
        } else {
            None
        },
        None => None,
    }
}

/// `m` with each pair of `ds` added where its key has no value yet.
pub open spec fn with_defaults(
    m: Map<Seq<char>, ValueView>,
    ds: Seq<(Seq<char>, ValueView)>,
) -> Map<Seq<char>, ValueView>
    decreases ds.len(),
{
    if ds.len() == 0 {
        m
    } else {
        let prev = with_defaults(m, ds.drop_last());
        if prev.contains_key(ds.last().0) {
            prev
        } else {
            prev.insert(ds.last().0, ds.last().1)
        }
    }
}

/// The view of the text that a `File` formats to.
pub open spec fn formatted(f: File) -> Seq<char> {
    file_text(layout_view(f.layout@), f.values.entries(), f.version as nat)
}

impl File {
    /// Reads a settings file into its layout and values, then runs the
    /// updaters from the declared version on. `T` is passed to the updaters.
    pub fn from_str<T, F: Fn(&mut ValueMap, &mut T)>(
        contents: &str,
        updater_fns: &[F],
        args: &mut T,
    ) -> (r: (Self, DidRunUpdaters, Vec<ParseEntryError>))
        requires
            updater_fns@.len() < usize::MAX,
            forall|n: nat| usable_version(contents@) == Some(n) ==> n <= updater_fns@.len() + 1,
            forall|i: int, m: &mut ValueMap, a: &mut T|
                0 <= i < updater_fns@.len() ==> call_requires(updater_fns@[i], (m, a)),
        ensures
            layout_view(r.0.layout@) == parsed_state(contents@).layout,
            r.0.version == updater_fns@.len() + 1,
            errors_view(r.2@) == parse_errors(contents@),
            r.1 == (first_updater(contents@, updater_fns@.len()) is Some),
            !r.1 ==> r.0.values.entries() == parsed_state(contents@).pairs,
            !r.1 ==> *final(args) == *old(args),
    {
        let lines = split_into_lines(contents);
        let ghost ls = lines_view(lines@);
        proof { crate::text::lemma_split_lines_len(contents@); }
        let mut layout: Vec<LayoutEntry> = Vec::new();
        let mut values = ValueMap::new();
        let mut errors: Vec<ParseEntryError> = Vec::new();
        let mut line_i: usize = 1;
        assert(layout_view(layout@) =~= Seq::empty());
        assert(errors_view(errors@) =~= Seq::empty());
        while line_i < lines.len()
            invariant
                1 <= line_i,
                ls == lines_view(lines@),
                ls == split_lines(contents@),
                scan(ls, line_i as int, ScanState {
                    layout: layout_view(layout@),
                    pairs: values.entries(),
                    errors: errors_view(errors@),
                }) == scan_lines(ls),
            decreases lines@.len() - line_i,
        {
            let ghost st = ScanState {
                layout: layout_view(layout@),
                pairs: values.entries(),
                errors: errors_view(errors@),
            };
            let ghost start = line_i as int;
            let ghost old_layout = layout@;
            let ghost old_errors = errors@;
            let result = parse_line(&lines, &mut line_i, &mut layout, &mut values);
            match result {
                Err(err) => {
                    assert(ls[start] == lines@[start]@);
                    layout.push(LayoutEntry::Comment(string_from_chars(&lines[line_i])));
                    errors.push(err);
                    assert(layout_view(layout@) =~= layout_view(old_layout).push(
                        crate::data::EntryView::Comment(ls[start]),
                    ));
                    assert(errors_view(errors@) =~= errors_view(old_errors).push(err@));
                },
                Ok(()) => {},
            }
            line_i += 1;
            proof {
                let (next, j) = step(ls, start, st);
                assert(j == line_i as int);
                assert(next == ScanState {
                    layout: layout_view(layout@),
                    pairs: values.entries(),
                    errors: errors_view(errors@),
                });
            }
        }
        let first = trimmed(&lines[0]);
        let first_text = string_from_chars(&first);
        let declared = get_file_version(first_text.as_str());
        let version = match declared {
            Some(v) => if v >= 1 {
                Some(v)
            } else {
                None
            },
            None => None,
        };
        let did_run_updaters = match version {
            Some(version) => {
                let mut k: usize = version - 1;
                let ran = k < updater_fns.len();
                if ran {
                    while k < updater_fns.len()
                        invariant
                            forall|i: int, m: &mut ValueMap, a: &mut T|
                                0 <= i < updater_fns@.len() ==> call_requires(
                                    updater_fns@[i],
                                    (m, a),
                                ),
                        decreases updater_fns@.len() - k,
                    {
                        (updater_fns[k])(&mut values, args);
                        k += 1;
                    }
                }
                ran
            },
            None => {
                let ghost before = errors@;
                errors.push(ParseEntryError::new(0, "Could not find version, assuming version is latest".to_owned()));
                assert(errors_view(errors@) =~= errors_view(before).push((1, msg_no_version())));
                false
            },
        };
        (File { values, layout, version: updater_fns.len() + 1 }, did_run_updaters, errors)
    }

    /// Writes the layout and values back as text, the opposite of `from_str`.
    /// Keys of the layout without a value are left out and reported; values
    /// whose key the layout does not hold are written after the layout.
    pub fn to_str(&self) -> (r: (String, Vec<FormatEntryError>))
        ensures
            r.0@ == formatted(*self),
            r.1@.map_values(|e: FormatEntryError| e.missing_key@) == missing_keys(
                layout_view(self.layout@),
                self.values@,
            ),
    {
        format_file(&self.layout, &self.values, self.version)
    }

    /// The value stored for `key`, if any.
    pub fn get(&self, key: &str) -> (r: Option<&Value>)
        ensures
            match r {
                Some(v) => self.values@.contains_key(key@) && v@ == self.values@[key@],
                None => !self.values@.contains_key(key@),
            },
    {
        self.values.get(key)
    }

    /// The value stored for `key`, to change in place.
    pub fn get_mut(&mut self, key: &str) -> (r: Option<&mut Value>)
        ensures
            match r {
                Some(v) => {
                    &&& old(self).values@.contains_key(key@)
                    &&& (*v)@ == old(self).values@[key@]
                    &&& final(self).values@ == old(self).values@.insert(key@, (*final(v))@)
                },
                None => !old(self).values@.contains_key(key@) && final(self).values@ == old(
                    self,
                ).values@,
            },
            final(self).layout == old(self).layout,
            final(self).version == old(self).version,
    {
        self.values.get_mut(key)
    }

    pub fn contains_key(&self, key: &str) -> (r: bool)
        ensures
            r == self.values@.contains_key(key@),
    {
        self.values.contains_key(key)
    }

    /// Sets `key` to `value`; returns the value it replaced, if any.
    pub fn insert(&mut self, key: String, value: Value) -> (r: Option<Value>)
        ensures
            final(self).values@ == old(self).values@.insert(key@, value@),
            match r {
                Some(v) => old(self).values@.contains_key(key@) && v@ == old(self).values@[key@],
                None => !old(self).values@.contains_key(key@),
            },
            final(self).layout == old(self).layout,
            final(self).version == old(self).version,
    {
        self.values.insert(key, value)
    }

    /// Removes `key`; returns its value, if it was present.
    pub fn remove(&mut self, key: &str) -> (r: Option<Value>)
        ensures
            final(self).values@ == old(self).values@.remove(key@),
            match r {
                Some(v) => old(self).values@.contains_key(key@) && v@ == old(self).values@[key@],
                None => !old(self).values@.contains_key(key@),
            },
            final(self).layout == old(self).layout,
            final(self).version == old(self).version,
    {
        self.values.remove(key)
    }

    /// Checks that `key` exists and holds `empty`.
    pub fn get_empty(&self, key: &str) -> (r: Result<(), RetrieveSettingError>)
        ensures
            !self.values@.contains_key(key@) ==> r is Err && r->Err_0@ == RetrieveErrorView::Missing(key@),
            self.values@.contains_key(key@) ==> match self.values@[key@] {
                ValueView::Empty => r is Ok,
                other => r is Err && r->Err_0@ == RetrieveErrorView::WrongSingularType(
                    key@,
                    "empty"@,
                    kind_name(other),
                ),
            },
    {
        match self.values.get(key) {
            None => Err(RetrieveSettingError::new_missing(key)),
            Some(Value::Empty) => Ok(()),
            Some(value) => Err(
                RetrieveSettingError::new_wrong_singular_type(key, "empty", value.type_as_string()),
            ),
        }
    }

    /// The value of `key` as an int.
    pub fn get_int(&self, key: &str) -> (r: Result<i64, RetrieveSettingError>)
        ensures
            !self.values@.contains_key(key@) ==> r is Err && r->Err_0@ == RetrieveErrorView::Missing(key@),
            self.values@.contains_key(key@) ==> match self.values@[key@] {
                ValueView::I64(n) => r == Ok::<i64, RetrieveSettingError>(n),
                other => r is Err && r->Err_0@ == RetrieveErrorView::WrongSingularType(
                    key@,
                    "Int"@,
                    kind_name(other),
                ),
            },
    {
        match self.values.get(key) {
            None => Err(RetrieveSettingError::new_missing(key)),
            Some(Value::I64(v)) => Ok(*v),
            Some(value) => Err(
                RetrieveSettingError::new_wrong_singular_type(key, "Int", value.type_as_string()),
            ),
        }
    }

    /// The value of `key` as an int, to change in place.
    pub fn get_int_mut(&mut self, key: &str) -> (r: Result<&mut i64, RetrieveSettingError>)
        ensures
            !old(self).values@.contains_key(key@) ==> r is Err && r->Err_0@
                == RetrieveErrorView::Missing(key@),
            old(self).values@.contains_key(key@) ==> match old(self).values@[key@] {
                ValueView::I64(n) => r is Ok,
                other => r is Err && r->Err_0@ == RetrieveErrorView::WrongSingularType(
                    key@,
                    "Int"@,
                    kind_name(other),
                ),
            },
            match r {
                Ok(p) => old(self).values@[key@] == ValueView::I64(*p) && final(self).values@
                    == old(self).values@.insert(key@, ValueView::I64(*final(p))),
                Err(_) => final(self).values@ == old(self).values@,
            },
            final(self).layout == old(self).layout,
            final(self).version == old(self).version,
    {
        match self.values.get_mut(key) {
            None => Err(RetrieveSettingError::new_missing(key)),
            Some(value) => match value {
                Value::I64(v) => Ok(v),
                other => Err(
                    RetrieveSettingError::new_wrong_singular_type(key, "Int", other.type_as_string()),
                ),
            },
        }
    }

    /// The value of `key` as a bool.
    pub fn get_bool(&self, key: &str) -> (r: Result<bool, RetrieveSettingError>)
        ensures
            !self.values@.contains_key(key@) ==> r is Err && r->Err_0@ == RetrieveErrorView::Missing(key@),
            self.values@.contains_key(key@) ==> match self.values@[key@] {
                ValueView::Bool(x) => r == Ok::<bool, RetrieveSettingError>(x),
                other => r is Err && r->Err_0@ == RetrieveErrorView::WrongSingularType(
                    key@,
                    "Bool"@,
                    kind_name(other),
                ),
            },
    {
        match self.values.get(key) {
            None => Err(RetrieveSettingError::new_missing(key)),
            Some(Value::Bool(v)) => Ok(*v),
            Some(value) => Err(
                RetrieveSettingError::new_wrong_singular_type(key, "Bool", value.type_as_string()),
            ),
        }
    }

    /// The value of `key` as a bool, to change in place.
    pub fn get_bool_mut(&mut self, key: &str) -> (r: Result<&mut bool, RetrieveSettingError>)
        ensures
            !old(self).values@.contains_key(key@) ==> r is Err && r->Err_0@
                == RetrieveErrorView::Missing(key@),
            old(self).values@.contains_key(key@) ==> match old(self).values@[key@] {
                ValueView::Bool(_) => r is Ok,
                other => r is Err && r->Err_0@ == RetrieveErrorView::WrongSingularType(
                    key@,
                    "Bool"@,
                    kind_name(other),
                ),
            },
            match r {
                Ok(p) => old(self).values@[key@] == ValueView::Bool(*p) && final(self).values@
                    == old(self).values@.insert(key@, ValueView::Bool(*final(p))),
                Err(_) => final(self).values@ == old(self).values@,
            },
            final(self).layout == old(self).layout,
            final(self).version == old(self).version,
    {
        match self.values.get_mut(key) {
            None => Err(RetrieveSettingError::new_missing(key)),
            Some(value) => match value {
                Value::Bool(v) => Ok(v),
                other => Err(
                    RetrieveSettingError::new_wrong_singular_type(key, "Bool", other.type_as_string()),
                ),
            },
        }
    }

    /// The value of `key` as a string.
    pub fn get_str(&self, key: &str) -> (r: Result<&str, RetrieveSettingError>)
        ensures
            !self.values@.contains_key(key@) ==> r is Err && r->Err_0@ == RetrieveErrorView::Missing(key@),
            self.values@.contains_key(key@) ==> match self.values@[key@] {
                ValueView::String(x) => r is Ok && r->Ok_0@ == x,
                other => r is Err && r->Err_0@ == RetrieveErrorView::WrongSingularType(
                    key@,
                    "String"@,
                    kind_name(other),
                ),
            },
    {
        match self.values.get(key) {
            None => Err(RetrieveSettingError::new_missing(key)),
            Some(Value::String(v)) => Ok(v.as_str()),
            Some(value) => Err(
                RetrieveSettingError::new_wrong_singular_type(key, "String", value.type_as_string()),
            ),
        }
    }

    /// The value of `key` as a string, to change in place.
    pub fn get_string_mut(&mut self, key: &str) -> (r: Result<&mut String, RetrieveSettingError>)
        ensures
            !old(self).values@.contains_key(key@) ==> r is Err && r->Err_0@
                == RetrieveErrorView::Missing(key@),
            old(self).values@.contains_key(key@) ==> match old(self).values@[key@] {
                ValueView::String(_) => r is Ok,
                other => r is Err && r->Err_0@ == RetrieveErrorView::WrongSingularType(
                    key@,
                    "String"@,
                    kind_name(other),
                ),
            },
            match r {
                Ok(p) => old(self).values@[key@] == ValueView::String((*p)@) && final(self).values@
                    == old(self).values@.insert(key@, ValueView::String((*final(p))@)),
                Err(_) => final(self).values@ == old(self).values@,
            },
            final(self).layout == old(self).layout,
            final(self).version == old(self).version,
    {
        match self.values.get_mut(key) {
            None => Err(RetrieveSettingError::new_missing(key)),
            Some(value) => match value {
                Value::String(v) => Ok(v),
                other => Err(
                    RetrieveSettingError::new_wrong_singular_type(key, "String", other.type_as_string()),
                ),
            },
        }
    }

    /// The decimal literal of `key`'s float value.
    pub fn get_float_literal(&self, key: &str) -> (r: Result<&str, RetrieveSettingError>)
        ensures
            !self.values@.contains_key(key@) ==> r is Err && r->Err_0@ == RetrieveErrorView::Missing(key@),
            self.values@.contains_key(key@) ==> match self.values@[key@] {
                ValueView::F64(x) => r is Ok && r->Ok_0@ == x,
                other => r is Err && r->Err_0@ == RetrieveErrorView::WrongSingularType(
                    key@,
                    "Float"@,
                    kind_name(other),
                ),
            },
    {
        match self.values.get(key) {
            None => Err(RetrieveSettingError::new_missing(key)),
            Some(Value::F64(v)) => Ok(v.as_str()),
            Some(value) => Err(
                RetrieveSettingError::new_wrong_singular_type(key, "Float", value.type_as_string()),
            ),
        }
    }

    /// The decimal literal of `key`'s float value, to change in place.
    pub fn get_float_literal_mut(&mut self, key: &str) -> (r: Result<&mut String, RetrieveSettingError>)
        ensures
            !old(self).values@.contains_key(key@) ==> r is Err && r->Err_0@
                == RetrieveErrorView::Missing(key@),
            old(self).values@.contains_key(key@) ==> match old(self).values@[key@] {
                ValueView::F64(_) => r is Ok,
                other => r is Err && r->Err_0@ == RetrieveErrorView::WrongSingularType(
                    key@,
                    "Float"@,
                    kind_name(other),
                ),
            },
            match r {
                Ok(p) => old(self).values@[key@] == ValueView::F64((*p)@) && final(self).values@
                    == old(self).values@.insert(key@, ValueView::F64((*final(p))@)),
                Err(_) => final(self).values@ == old(self).values@,
            },
            final(self).layout == old(self).layout,
            final(self).version == old(self).version,
    {
        match self.values.get_mut(key) {
            None => Err(RetrieveSettingError::new_missing(key)),
            Some(value) => match value {
                Value::F64(v) => Ok(v),
                other => Err(
                    RetrieveSettingError::new_wrong_singular_type(key, "Float", other.type_as_string()),
                ),
            },
        }
    }

    /// The decimal text of `key`'s value, which may be an int or a float.
    pub fn get_number_literal(&self, key: &str) -> (r: Result<String, RetrieveSettingError>)
        ensures
            !self.values@.contains_key(key@) ==> r is Err && r->Err_0@ == RetrieveErrorView::Missing(key@),
            self.values@.contains_key(key@) ==> match self.values@[key@] {
                ValueView::I64(n) => r is Ok && r->Ok_0@ == signed_decimal(n as int),
                ValueView::F64(t) => r is Ok && r->Ok_0@ == t,
                other => r is Err && r->Err_0@ == RetrieveErrorView::WrongMultipleType(
                    key@,
                    seq!["Int"@, "Float"@],
                    kind_name(other),
                ),
            },
    {
        match self.values.get(key) {
            None => Err(RetrieveSettingError::new_missing(key)),
            Some(Value::I64(n)) => {
                let mut out: Vec<char> = Vec::new();
                push_signed_decimal(&mut out, *n);
                Ok(string_from_chars(&out))
            },
            Some(Value::F64(t)) => Ok(t.clone()),
            Some(value) => {
                let mut expected: Vec<String> = Vec::new();
                expected.push("Int".to_owned());
                expected.push("Float".to_owned());
                let r = RetrieveSettingError::new_wrong_multiple_type(
                    key,
                    expected,
                    value.type_as_string(),
                );
                assert(r@->WrongMultipleType_1 =~= seq!["Int"@, "Float"@]);
                Err(r)
            },
        }
    }

    /// Adds each default whose key has no value yet; never overwrites.
    pub fn add_missing_values(&mut self, defaults: Vec<(&str, Value)>)
        ensures
            final(self).values@ == with_defaults(
                old(self).values@,
                defaults@.map_values(|d: (&str, Value)| (d.0@, d.1@)),
            ),
            final(self).layout == old(self).layout,
            final(self).version == old(self).version,
    {
        let ghost ds = defaults@.map_values(|d: (&str, Value)| (d.0@, d.1@));
        let ghost m0 = self.values@;
        let mut i: usize = 0;
        assert(ds.take(0) =~= Seq::<(Seq<char>, ValueView)>::empty());
        while i < defaults.len()
            invariant
                i <= defaults@.len(),
                ds == defaults@.map_values(|d: (&str, Value)| (d.0@, d.1@)),
                self.values@ == with_defaults(m0, ds.take(i as int)),
                self.layout == old(self).layout,
                self.version == old(self).version,
            decreases defaults@.len() - i,
        {
            let key = defaults[i].0;
            assert(ds.take(i + 1).drop_last() =~= ds.take(i as int));
            assert(ds.take(i + 1).last() == (key@, defaults@[i as int].1@));
            if !self.values.contains_key(key) {
                self.values.insert(key.to_owned(), clone_value(&defaults[i].1));
            }
            i += 1;
        }
        assert(ds.take(defaults@.len() as int) =~= ds);
    }
}

} // verus!
