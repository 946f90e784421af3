use vstd::prelude::*;

use crate::data::{word_empty, word_false, word_true, EntryView, LayoutEntry, Value, ValueView};
use crate::errors::ParseEntryError;
use crate::literal::{int_of_text, is_float_literal, is_float_text, is_int_literal};
use crate::text::{
    all_digits, chars_of, digits_value, eq_ignore_case, equals_ignore_case, is_digit,
    is_digit_char, join_lines, push_all, push_str, split_lines, string_from_chars, sub_vec, trim,
    trim_start, trimmed, trimmed_start,
};
use crate::values::{map_of, ValueMap};

verus! {

pub open spec fn hash_pair() -> Seq<char> {
    seq!['#', '#']
}

pub open spec fn format_prefix() -> Seq<char> {
    seq!['f', 'o', 'r', 'm', 'a', 't', ' ']
}

pub open spec fn msg_no_version() -> Seq<char> {
    "Could not find version, assuming version is latest"@
}

pub open spec fn msg_no_colon() -> Seq<char> {
    "No colon was found, either add a colon after the key or mark this as a comment."@
}

pub open spec fn msg_start_colon() -> Seq<char> {
    "Lines cannot start with a colon."@
}

pub open spec fn msg_defined(key: Seq<char>) -> Seq<char> {
    "Key \""@ + key + "\" is already defined."@
}

pub open spec fn msg_open_comment() -> Seq<char> {
    "Could not find an end of this multiline comment. To end a multiline comment, its last line should be nothing but '##'."@
}

pub open spec fn msg_no_value() -> Seq<char> {
    "No value was found for this key (if this is meant to be empty, please set the value as 'empty')."@
}

pub open spec fn msg_no_end_quote() -> Seq<char> {
    "Invalid string, no ending quote found. If this is a single-line string, no characters are allowed after the final quotation mark. If this is meant to be a multi-line string, no characters are allowed after the first quotation mark."@
}

pub open spec fn msg_invalid_value() -> Seq<char> {
    "Invalid value, must be 'empty', 'true', 'false', a valid integer, a valid decimal number, a string enclosed in quotes, or a multiline quote starting with a single '\"' character."@
}

pub open spec fn msg_empty_string() -> Seq<char> {
    "Invalid value, multiline strings cannot be empty"@
}

/// The version that a (trimmed) first line declares: `format ` and a `usize`,
/// optionally written with a leading `+`.
pub open spec fn header_version(t: Seq<char>) -> Option<nat> {
    if t.len() >= 7 && t.take(7) == format_prefix() {
        let d = t.skip(7);
        let n = if d.len() > 0 && d[0] == '+' {
            d.skip(1)
        } else {
            d
        };
        if n.len() > 0 && all_digits(n) && digits_value(n) <= usize::MAX {
            Some(digits_value(n))
        } else {
            None
        }
    } else {
        None
    }
}

/// First index at or after `j` whose line trims to `##`.
pub open spec fn comment_end(ls: Seq<Seq<char>>, j: int) -> Option<int>
    decreases ls.len() - j,
{
    if j < 0 || j >= ls.len() {
        None
    } else if trim(ls[j]) == hash_pair() {
        Some(j)
    } else {
        comment_end(ls, j + 1)
    }
}

pub open spec fn quoted(l: Seq<char>) -> bool {
    trim_start(l).len() > 0 && trim_start(l)[0] == '"'
}

/// First index at or after `j` whose line does not start with `"` (after
/// leading whitespace), or the number of lines.
pub open spec fn string_end(ls: Seq<Seq<char>>, j: int) -> int
    decreases ls.len() - j,
{
    if j < 0 || j >= ls.len() || !quoted(ls[j]) {
        j
    } else {
        string_end(ls, j + 1)
    }
}

/// What one line (and the lines it pulls in) gives.
pub enum LineOutcome {
    /// A layout entry without a value; `extra` more lines were consumed
    Entry(EntryView, nat),
    /// A key and its value; `extra` more lines were consumed
    Pair(Seq<char>, ValueView, nat),
    /// The line is invalid, for the reason given
    Failed(Seq<char>),
}

/// What a value literal gives.
pub enum ValueOutcome {
    Parsed(ValueView, nat),
    Failed(Seq<char>),
}

/// The multi-line comment opened at line `i`.
pub open spec fn comment_outcome(ls: Seq<Seq<char>>, i: int) -> LineOutcome {
    match comment_end(ls, i + 1) {
        Some(j) => LineOutcome::Entry(
            EntryView::Comment(join_lines(ls.subrange(i + 1, j))),
            (j - i) as nat,
        ),
        None => LineOutcome::Failed(msg_open_comment()),
    }
}

/// The text that a line of a multi-line string contributes.
pub open spec fn string_line(l: Seq<char>) -> Seq<char> {
    trim_start(l).drop_first()
}

/// The multi-line string opened at line `i`.
pub open spec fn string_outcome(ls: Seq<Seq<char>>, i: int) -> ValueOutcome {
    let e = string_end(ls, i + 1);
    if e <= i + 1 {
        ValueOutcome::Failed(msg_empty_string())
    } else {
        ValueOutcome::Parsed(
            ValueView::String(join_lines(ls.subrange(i + 1, e).map_values(|l| string_line(l)))),
            (e - 1 - i) as nat,
        )
    }
}

/// The value after the colon at index `c` of the trimmed line `i`.
pub open spec fn value_outcome(ls: Seq<Seq<char>>, i: int, c: int) -> ValueOutcome {
    let v = trim_start(trim(ls[i]).skip(c + 1));
    if v.len() == 0 {
        ValueOutcome::Failed(msg_no_value())
    } else if eq_ignore_case(v, word_empty()) {
        ValueOutcome::Parsed(ValueView::Empty, 0)
    } else if eq_ignore_case(v, word_true()) {
        ValueOutcome::Parsed(ValueView::Bool(true), 0)
    } else if eq_ignore_case(v, word_false()) {
        ValueOutcome::Parsed(ValueView::Bool(false), 0)
    } else if v == seq!['"'] {
        string_outcome(ls, i)
    } else if is_digit(v[0]) && is_int_literal(v) {
        ValueOutcome::Parsed(ValueView::I64(digits_value(v) as i64), 0)
    } else if is_digit(v[0]) && is_float_literal(v) {
        ValueOutcome::Parsed(ValueView::F64(v), 0)
    } else if v[0] == '"' {
        if v.last() != '"' {
            ValueOutcome::Failed(msg_no_end_quote())
        } else {
            ValueOutcome::Parsed(ValueView::String(v.subrange(1, v.len() - 1)), 0)
        }
    } else {
        ValueOutcome::Failed(msg_invalid_value())
    }
}

/// Index of the first `:` in `t`.
pub open spec fn first_colon(t: Seq<char>) -> Option<int> {
    if exists|k: int| 0 <= k < t.len() && t[k] == ':' {
        Some(choose|k: int| 0 <= k < t.len() && t[k] == ':' && forall|m: int| 0 <= m < k ==> t[m] != ':')
    } else {
        None
    }
}

/// What line `i` gives, given the pairs read before it.
pub open spec fn line_outcome(
    ls: Seq<Seq<char>>,
    i: int,
    pairs: Seq<(Seq<char>, ValueView)>,
) -> LineOutcome {
    let t = trim(ls[i]);
    if t.len() == 0 {
        LineOutcome::Entry(EntryView::Empty, 0)
    } else if t == hash_pair() {
        comment_outcome(ls, i)
    } else if t[0] == '#' {
        LineOutcome::Entry(EntryView::Comment(t.drop_first()), 0)
    } else {
        match first_colon(t) {
            None => LineOutcome::Failed(msg_no_colon()),
            Some(c) => if c == 0 {
                LineOutcome::Failed(msg_start_colon())
            } else if map_of(pairs).contains_key(t.take(c)) {
                LineOutcome::Failed(msg_defined(t.take(c)))
            } else {
                match value_outcome(ls, i, c) {
                    ValueOutcome::Parsed(v, extra) => LineOutcome::Pair(t.take(c), v, extra),
                    ValueOutcome::Failed(m) => LineOutcome::Failed(m),
                }
            },
        }
    }
}

/// What the scanner has gathered so far.
#[verifier::ext_equal]
pub struct ScanState {
    pub layout: Seq<EntryView>,
    pub pairs: Seq<(Seq<char>, ValueView)>,
    pub errors: Seq<(nat, Seq<char>)>,
}

pub open spec fn empty_state() -> ScanState {
    ScanState { layout: Seq::empty(), pairs: Seq::empty(), errors: Seq::empty() }
}

/// The state after one line, starting at line `i`, and the line to go on from.
pub open spec fn step(ls: Seq<Seq<char>>, i: int, st: ScanState) -> (ScanState, int) {
    match line_outcome(ls, i, st.pairs) {
        LineOutcome::Entry(e, extra) => (
            ScanState { layout: st.layout.push(e), ..st },
            i + 1 + extra,
        ),
        LineOutcome::Pair(k, v, extra) => (
            ScanState {
                layout: st.layout.push(EntryView::Key(k)),
                pairs: st.pairs.push((k, v)),
                ..st
            },
            i + 1 + extra,
        ),
        LineOutcome::Failed(m) => (
            ScanState {
                layout: st.layout.push(EntryView::Comment(ls[i])),
                errors: st.errors.push(((i + 1) as nat, m)),
                ..st
            },
            i + 1,
        ),
    }
}

/// Scans the lines from `i` on, with error recovery.
pub open spec fn scan(ls: Seq<Seq<char>>, i: int, st: ScanState) -> ScanState
    decreases ls.len() - i,
{
    if i < 0 || i >= ls.len() {
        st
    } else {
        let (next, j) = step(ls, i, st);
        if j <= i || j > ls.len() {
            next
        } else {
            scan(ls, j, next)
        }
    }
}

/// What the lines of a file give, the header line aside.
pub open spec fn scan_lines(ls: Seq<Seq<char>>) -> ScanState {
    scan(ls, 1, empty_state())
}

pub open spec fn lines_view(v: Seq<Vec<char>>) -> Seq<Seq<char>> {
    v.map_values(|l: Vec<char>| l@)
}

pub open spec fn layout_view(v: Seq<LayoutEntry>) -> Seq<EntryView> {
    v.map_values(|e: LayoutEntry| e@)
}

pub open spec fn errors_view(v: Seq<ParseEntryError>) -> Seq<(nat, Seq<char>)> {
    v.map_values(|e: ParseEntryError| e@)
}

pub proof fn lemma_comment_end(ls: Seq<Seq<char>>, j: int)
    requires
        0 <= j,
    ensures
        match comment_end(ls, j) {
            Some(k) => j <= k < ls.len() && trim(ls[k]) == hash_pair() && forall|m: int|
                j <= m < k ==> trim(#[trigger] ls[m]) != hash_pair(),
            None => forall|m: int| j <= m < ls.len() ==> trim(#[trigger] ls[m]) != hash_pair(),
        },
    decreases ls.len() - j,
{
    if j < ls.len() && trim(ls[j]) != hash_pair() {
        lemma_comment_end(ls, j + 1);
    }
}

pub proof fn lemma_string_end(ls: Seq<Seq<char>>, j: int)
    requires
        0 <= j <= ls.len(),
    ensures
        j <= string_end(ls, j) <= ls.len(),
        forall|m: int| j <= m < string_end(ls, j) ==> quoted(#[trigger] ls[m]),
        string_end(ls, j) < ls.len() ==> !quoted(ls[string_end(ls, j)]),
    decreases ls.len() - j,
{
    if j < ls.len() && quoted(ls[j]) {
        lemma_string_end(ls, j + 1);
    }
}

/// Splits a text into its lines.
pub fn split_into_lines(text: &str) -> (r: Vec<Vec<char>>)
    ensures
        lines_view(r@) == split_lines(text@),
{
    let cs = chars_of(text);
    let mut lines: Vec<Vec<char>> = Vec::new();
    let mut cur: Vec<char> = Vec::new();
    let mut i: usize = 0;
    assert(cs@.take(0) =~= Seq::<char>::empty());
    assert(lines_view(lines@).push(cur@) =~= split_lines(cs@.take(0)));
    while i < cs.len()
        invariant
            i <= cs@.len(),
            lines_view(lines@).push(cur@) == split_lines(cs@.take(i as int)),
        decreases cs@.len() - i,
    {
        let c = cs[i];
        let ghost before = cs@.take(i as int);
        assert(cs@.take(i + 1).drop_last() =~= before);
        proof { crate::text::lemma_split_lines_len(before); }
        if c == '\n' {
            let done = cur;
            lines.push(done);
            cur = Vec::new();
            assert(lines_view(lines@).push(cur@) =~= split_lines(cs@.take(i + 1)));
        } else {
            cur.push(c);
            assert(lines_view(lines@).push(cur@) =~= split_lines(cs@.take(i + 1)));
        }
        i += 1;
    }
    assert(cs@.take(cs@.len() as int) =~= cs@);
    lines.push(cur);
    assert(lines_view(lines@) =~= split_lines(text@));
    lines
}

/// Reads the version that a (trimmed) first line declares.
pub fn get_file_version(first_line: &str) -> (r: Option<usize>)
    ensures
        match header_version(first_line@) {
            Some(n) => r == Some(n as usize),
            None => r is None,
        },
{
    let t = chars_of(first_line);
    if t.len() < 7 || t[0] != 'f' || t[1] != 'o' || t[2] != 'r' || t[3] != 'm' || t[4] != 'a'
        || t[5] != 't' || t[6] != ' ' {
        proof {
            if t@.len() >= 7 && t@.take(7) == format_prefix() {
                assert(t@.take(7)[0] == 'f');
                assert(t@.take(7)[1] == 'o');
                assert(t@.take(7)[2] == 'r');
                assert(t@.take(7)[3] == 'm');
                assert(t@.take(7)[4] == 'a');
                assert(t@.take(7)[5] == 't');
                assert(t@.take(7)[6] == ' ');
            }
        }
        return None;
    }
    assert(t@.take(7) =~= format_prefix());
    let start: usize = if t.len() > 7 && t[7] == '+' {
        8
    } else {
        7
    };
    let r = crate::text::parse_digits(&t, start, usize::MAX as u64);
    proof {
        let d = t@.skip(7);
        if d.len() > 0 && d[0] == '+' {
            assert(d.skip(1) =~= t@.subrange(8, t@.len() as int));
        } else {
            assert(d =~= t@.subrange(7, t@.len() as int));
        }
    }
    match r {
        Some(n) => Some(n as usize),
        None => None,
    }
}

fn first_colon_exec(t: &Vec<char>) -> (r: Option<usize>)
    ensures
        match r {
            Some(k) => first_colon(t@) == Some(k as int) && k < t@.len() && t@[k as int] == ':'
                && forall|m: int| 0 <= m < k ==> t@[m] != ':',
            None => first_colon(t@) is None && forall|m: int| 0 <= m < t@.len() ==> t@[m] != ':',
        },
{
    let mut k: usize = 0;
    while k < t.len()
        invariant
            k <= t@.len(),
            forall|m: int| 0 <= m < k ==> t@[m] != ':',
        decreases t@.len() - k,
    {
        if t[k] == ':' {
            proof {
                let c = choose|c: int|
                    0 <= c < t@.len() && t@[c] == ':' && forall|m: int| 0 <= m < c ==> t@[m] != ':';
                assert(c == k as int) by {
                    if c < k {
                    } else if c > k {
                        assert(t@[k as int] != ':');
                    }
                }
            }
            return Some(k);
        }
        k += 1;
    }
    None
}

fn message(s: &str) -> (r: String)
    ensures
        r@ == s@,
{
    s.to_owned()
}

/// Reads the multi-line comment that opens at line `*line_i`.
///
/// On success `*line_i` is left at its closing `##` line; on failure it is
/// left where it was.
pub fn parse_multiline_comment(lines: &Vec<Vec<char>>, line_i: &mut usize) -> (r: Result<
    LayoutEntry,
    ParseEntryError,
>)
    requires
        *old(line_i) < lines@.len(),
    ensures
        match comment_outcome(lines_view(lines@), *old(line_i) as int) {
            LineOutcome::Entry(e, extra) => r is Ok && r->Ok_0@ == e && *final(line_i) == *old(
                line_i,
            ) + extra && *final(line_i) < lines@.len(),
            LineOutcome::Failed(m) => r is Err && r->Err_0@ == ((*old(line_i) + 1) as nat, m)
                && *final(line_i) == *old(line_i),
            _ => false,
        },
{
    let ghost ls = lines_view(lines@);
    let start = *line_i;
    let line_count = lines.len();
    proof { lemma_comment_end(ls, start + 1); }
    let mut j: usize = start + 1;
    let mut body: Vec<char> = Vec::new();
    while j < line_count && !is_hash_pair(&trimmed(&lines[j]))
        invariant
            start < j <= lines@.len(),
            line_count == lines@.len(),
            ls == lines_view(lines@),
            comment_end(ls, start + 1) == comment_end(ls, j as int),
            forall|m: int| start < m < j ==> trim(#[trigger] ls[m]) != hash_pair(),
            j > start + 1 ==> body@ == join_lines(ls.subrange(start + 1, j as int)),
            j == start + 1 ==> body@ == Seq::<char>::empty(),
        decreases lines@.len() - j,
    {
        if j > start + 1 {
            body.push('\n');
        }
        push_all(&mut body, &lines[j]);
        proof {
            let sub = ls.subrange(start + 1, j + 1);
            assert(sub.drop_last() =~= ls.subrange(start + 1, j as int));
            assert(ls[j as int] == lines@[j as int]@);
            assert(body@ =~= join_lines(sub));
        }
        j += 1;
    }
    if j == line_count {
        assert(comment_end(ls, j as int) is None);
        let e = ParseEntryError::new(start, message("Could not find an end of this multiline comment. To end a multiline comment, its last line should be nothing but '##'."));
        return Err(e);
    }
    assert(comment_end(ls, j as int) == Some(j as int));
    assert(j > start + 1 ==> body@ == join_lines(ls.subrange(start + 1, j as int)));
    assert(j == start + 1 ==> ls.subrange(start + 1, j as int) =~= Seq::<Seq<char>>::empty());
    *line_i = j;
    Ok(LayoutEntry::Comment(string_from_chars(&body)))
}

fn is_hash_pair(t: &Vec<char>) -> (r: bool)
    ensures
        r == (t@ == hash_pair()),
{
    let r = t.len() == 2 && t[0] == '#' && t[1] == '#';
    proof {
        if t@ == hash_pair() {
            assert(t@[0] == '#' && t@[1] == '#');
        }
        if r {
            assert(t@ =~= hash_pair());
        }
    }
    r
}

fn is_quoted(l: &Vec<char>) -> (r: bool)
    ensures
        r == quoted(l@),
{
    let t = trimmed_start(l);
    t.len() > 0 && t[0] == '"'
}

/// Reads the multi-line string that opens at line `*line_i`.
///
/// On success `*line_i` is left at its last line; on failure it is left
/// where it was.
pub fn parse_multiline_string(lines: &Vec<Vec<char>>, line_i: &mut usize) -> (r: Result<
    Value,
    ParseEntryError,
>)
    requires
        *old(line_i) < lines@.len(),
    ensures
        match string_outcome(lines_view(lines@), *old(line_i) as int) {
            ValueOutcome::Parsed(v, extra) => r is Ok && r->Ok_0@ == v && *final(line_i) == *old(
                line_i,
            ) + extra && *final(line_i) < lines@.len(),
            ValueOutcome::Failed(m) => r is Err && r->Err_0@ == ((*old(line_i) + 1) as nat, m)
                && *final(line_i) == *old(line_i),
        },
{
    let ghost ls = lines_view(lines@);
    let start = *line_i;
    let line_count = lines.len();
    proof { lemma_string_end(ls, start + 1); }
    let mut j: usize = start + 1;
    let mut body: Vec<char> = Vec::new();
    while j < line_count && is_quoted(&lines[j])
        invariant
            start < j <= lines@.len(),
            line_count == lines@.len(),
            ls == lines_view(lines@),
            string_end(ls, start + 1) == string_end(ls, j as int),
            j > start + 1 ==> body@ == join_lines(
                ls.subrange(start + 1, j as int).map_values(|l| string_line(l)),
            ),
            j == start + 1 ==> body@ == Seq::<char>::empty(),
        decreases lines@.len() - j,
    {
        if j > start + 1 {
            body.push('\n');
        }
        let t = trimmed_start(&lines[j]);
        let rest = sub_vec(&t, 1, t.len());
        push_all(&mut body, &rest);
        proof {
            let sub = ls.subrange(start + 1, j + 1).map_values(|l| string_line(l));
            assert(sub.drop_last() =~= ls.subrange(start + 1, j as int).map_values(
                |l| string_line(l),
            ));
            assert(ls[j as int] == lines@[j as int]@);
            assert(rest@ =~= string_line(ls[j as int]));
            assert(body@ =~= join_lines(sub));
        }
        j += 1;
    }
    if j == start + 1 {
        let e = ParseEntryError::new(start, message("Invalid value, multiline strings cannot be empty"));
        return Err(e);
    }
    *line_i = j - 1;
    Ok(Value::String(string_from_chars(&body)))
}

/// Reads the value after the colon at `colon_index` of line `*line_i`
/// (trimmed).
pub fn parse_value(lines: &Vec<Vec<char>>, line_i: &mut usize, colon_index: usize) -> (r: Result<
    Value,
    ParseEntryError,
>)
    requires
        *old(line_i) < lines@.len(),
        colon_index < trim(lines@[*old(line_i) as int]@).len(),
    ensures
        match value_outcome(lines_view(lines@), *old(line_i) as int, colon_index as int) {
            ValueOutcome::Parsed(v, extra) => r is Ok && r->Ok_0@ == v && *final(line_i) == *old(
                line_i,
            ) + extra && *final(line_i) < lines@.len(),
            ValueOutcome::Failed(m) => r is Err && r->Err_0@ == ((*old(line_i) + 1) as nat, m)
                && *final(line_i) == *old(line_i),
        },
{
    let ghost ls = lines_view(lines@);
    let i = *line_i;
    let line_count = lines.len();
    assert(i < line_count);
    assert(ls[i as int] == lines@[i as int]@);
    let t = trimmed(&lines[i]);
    let len = t.len();
    let after = sub_vec(&t, colon_index + 1, len);
    assert(after@ =~= t@.skip(colon_index + 1));
    let v = trimmed_start(&after);
    if v.len() == 0 {
        return Err(ParseEntryError::new(i, message("No value was found for this key (if this is meant to be empty, please set the value as 'empty').")));
    }
    let w_empty: Vec<char> = vec!['e', 'm', 'p', 't', 'y'];
    let w_true: Vec<char> = vec!['t', 'r', 'u', 'e'];
    let w_false: Vec<char> = vec!['f', 'a', 'l', 's', 'e'];
    assert(w_empty@ =~= word_empty());
    assert(w_true@ =~= word_true());
    assert(w_false@ =~= word_false());
    if equals_ignore_case(&v, &w_empty) {
        return Ok(Value::Empty);
    }
    if equals_ignore_case(&v, &w_true) {
        return Ok(Value::Bool(true));
    }
    if equals_ignore_case(&v, &w_false) {
        return Ok(Value::Bool(false));
    }
    if v.len() == 1 && v[0] == '"' {
        assert(v@ =~= seq!['"']);
        return parse_multiline_string(lines, line_i);
    }
    assert(v@ != seq!['"']);
    let first = v[0];
    if is_digit_char(first) {
        match int_of_text(&v) {
            Some(n) => {
                return Ok(Value::I64(n));
            },
            None => {},
        }
        if is_float_text(&v) {
            return Ok(Value::F64(string_from_chars(&v)));
        }
    }
    if first == '"' {
        let last = v[v.len() - 1];
        if last != '"' {
            return Err(ParseEntryError::new(i, message("Invalid string, no ending quote found. If this is a single-line string, no characters are allowed after the final quotation mark. If this is meant to be a multi-line string, no characters are allowed after the first quotation mark.")));
        }
        let inner = sub_vec(&v, 1, v.len() - 1);
        return Ok(Value::String(string_from_chars(&inner)));
    }
    Err(ParseEntryError::new(i, message("Invalid value, must be 'empty', 'true', 'false', a valid integer, a valid decimal number, a string enclosed in quotes, or a multiline quote starting with a single '\"' character.")))
}

/// Reads line `*line_i` (and the lines it pulls in), adding what it gives to
/// `layout` and `values`.
///
/// On success `*line_i` is left at the last line consumed; on failure
/// nothing is changed.
pub fn parse_line(
    lines: &Vec<Vec<char>>,
    line_i: &mut usize,
    layout: &mut Vec<LayoutEntry>,
    values: &mut ValueMap,
) -> (r: Result<(), ParseEntryError>)
    requires
        *old(line_i) < lines@.len(),
    ensures
        match line_outcome(lines_view(lines@), *old(line_i) as int, old(values).entries()) {
            LineOutcome::Entry(e, extra) => {
                &&& r is Ok
                &&& *final(line_i) == *old(line_i) + extra
                &&& layout_view(final(layout)@) == layout_view(old(layout)@).push(e)
                &&& final(values).entries() == old(values).entries()
            },
            LineOutcome::Pair(k, v, extra) => {
                &&& r is Ok
                &&& *final(line_i) == *old(line_i) + extra
                &&& layout_view(final(layout)@) == layout_view(old(layout)@).push(
                    EntryView::Key(k),
                )
                &&& final(values).entries() == old(values).entries().push((k, v))
            },
            LineOutcome::Failed(m) => {
                &&& r is Err
                &&& r->Err_0@ == ((*old(line_i) + 1) as nat, m)
                &&& *final(line_i) == *old(line_i)
                &&& final(layout)@ == old(layout)@
                &&& final(values).entries() == old(values).entries()
            },
        },
        *final(line_i) < lines@.len(),
{
    let ghost ls = lines_view(lines@);
    let i = *line_i;
    let line_count = lines.len();
    assert(i < line_count);
    assert(ls[i as int] == lines@[i as int]@);
    let t = trimmed(&lines[i]);
    if t.len() == 0 {
        layout.push(LayoutEntry::Empty);
        assert(layout_view(layout@) =~= layout_view(old(layout)@).push(EntryView::Empty));
        return Ok(());
    }
    if is_hash_pair(&t) {
        match parse_multiline_comment(lines, line_i) {
            Ok(e) => {
                layout.push(e);
                assert(layout_view(layout@) =~= layout_view(old(layout)@).push(e@));
                return Ok(());
            },
            Err(err) => {
                return Err(err);
            },
        }
    }
    if t[0] == '#' {
        let body = sub_vec(&t, 1, t.len());
        assert(body@ =~= t@.drop_first());
        layout.push(LayoutEntry::Comment(string_from_chars(&body)));
        assert(layout_view(layout@) =~= layout_view(old(layout)@).push(
            EntryView::Comment(t@.drop_first()),
        ));
        return Ok(());
    }
    let colon = first_colon_exec(&t);
    let colon_index = match colon {
        None => {
            return Err(ParseEntryError::new(i, message("No colon was found, either add a colon after the key or mark this as a comment.")));
        },
        Some(c) => c,
    };
    if colon_index == 0 {
        return Err(ParseEntryError::new(i, message("Lines cannot start with a colon.")));
    }
    let key_chars = sub_vec(&t, 0, colon_index);
    assert(key_chars@ =~= t@.take(colon_index as int));
    let key = string_from_chars(&key_chars);
    if values.contains_key(key.as_str()) {
        let mut m: Vec<char> = Vec::new();
        push_str(&mut m, "Key \"");
        push_all(&mut m, &key_chars);
        push_str(&mut m, "\" is already defined.");
        return Err(ParseEntryError::new(i, string_from_chars(&m)));
    }
    let value = match parse_value(lines, line_i, colon_index) {
        Ok(v) => v,
        Err(e) => {
            return Err(e);
        },
    };
    layout.push(LayoutEntry::Key(key.clone()));
    assert(layout_view(layout@) =~= layout_view(old(layout)@).push(EntryView::Key(key@)));
    values.insert(key, value);
    Ok(())
}

} // verus!
