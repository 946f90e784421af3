use vstd::prelude::*;

use crate::data::{quote_lines, render_value, word_empty, word_false, word_true, EntryView, ValueView};
use crate::parser::{
    comment_end, first_colon, format_prefix, hash_pair, header_version, scan_lines, lemma_comment_end, lemma_string_end, line_outcome,
    quoted, scan, step, string_end, string_line, value_outcome, LineOutcome, ScanState,
    ValueOutcome,
};
use crate::file::{declared_version, formatted, parse_errors, parsed_state, File};
use crate::parser::layout_view;
use crate::values::{lemma_map_of_absent, lemma_map_of_contains, lemma_map_of_index, map_of, unique_keys};
use crate::formatter::{
    entry_text, extra_text, file_text, header_text, in_layout, layout_text, missing_keys, pair_text,
};
use crate::literal::{digits_end, is_float_literal, is_int_literal, lemma_digits_end_bounds};
use crate::text::{
    ascii_lower, eq_ignore_case, all_digits, decimal, digit_char, digit_value, digits_value, is_digit, is_ws, join_lines,
    lemma_split_lines_len, split_lines, trim, trim_end, trim_start,
};

verus! {

pub proof fn lemma_layout_text_append(a: Seq<EntryView>, b: Seq<EntryView>, m: Map<Seq<char>, ValueView>)
    ensures
        layout_text(a + b, m) == layout_text(a, m) + layout_text(b, m),
        missing_keys(a + b, m) == missing_keys(a, m) + missing_keys(b, m),
    decreases b.len(),
{
    if b.len() == 0 {
        assert(a + b =~= a);
        assert(layout_text(a, m) + layout_text(b, m) =~= layout_text(a, m));
        assert(missing_keys(a, m) + missing_keys(b, m) =~= missing_keys(a, m));
    } else {
        lemma_layout_text_append(a, b.drop_last(), m);
        assert((a + b).drop_last() =~= a + b.drop_last());
        assert((a + b).last() == b.last());
        assert(layout_text(a + b, m) =~= layout_text(a, m) + layout_text(b, m));
        assert(missing_keys(a + b, m) =~= missing_keys(a, m) + missing_keys(b, m));
    }
}

/// A key of the layout that has no value is reported once, where it stands,
/// and gives no text: the text is that of the entries around it.
pub proof fn law_missing_key_reported(
    before: Seq<EntryView>,
    after: Seq<EntryView>,
    values: Map<Seq<char>, ValueView>,
    x: Seq<char>,
)
    requires
        !values.contains_key(x),
    ensures
        ({
            let l = before + seq![EntryView::Key(x)] + after;
            &&& missing_keys(l, values) == missing_keys(before, values) + seq![x] + missing_keys(
                after,
                values,
            )
            &&& layout_text(l, values) == layout_text(before, values) + layout_text(after, values)
        }),
{
    let one = seq![EntryView::Key(x)];
    lemma_layout_text_append(before, one, values);
    lemma_layout_text_append(before + one, after, values);
    assert(one.drop_last() =~= Seq::<EntryView>::empty());
    assert(one.last() == EntryView::Key(x));
    assert(missing_keys(one.drop_last(), values) =~= Seq::<Seq<char>>::empty());
    assert(layout_text(one.drop_last(), values) =~= Seq::<char>::empty());
    assert(entry_text(EntryView::Key(x), values) =~= Seq::<char>::empty());
    assert(missing_keys(one, values) =~= seq![x]);
    assert(layout_text(one, values) =~= Seq::<char>::empty());
    assert(layout_text(before, values) + layout_text(one, values) =~= layout_text(before, values));
}

} // verus!

verus! {

/// A key that the scanner reads back as written: not empty, no leading
/// whitespace, no leading `#`, and no `:` or `\n` in it.
pub open spec fn key_readable(k: Seq<char>) -> bool {
    &&& k.len() > 0
    &&& !is_ws(k[0])
    &&& k[0] != '#'
    &&& !k.contains(':')
    &&& !k.contains('\n')
}

/// A key whose line is read back as written wherever it stands, also right
/// after a string of several lines: a readable key that does not start with `"`.
pub open spec fn key_ok(k: Seq<char>) -> bool {
    key_readable(k) && k[0] != '"'
}

/// The line list is empty or its first line does not start with `"`, so a
/// string of several lines ends before it.
pub open spec fn opens_plain(ls: Seq<Seq<char>>) -> bool {
    ls.len() == 0 || !quoted(ls[0])
}

/// A value that the scanner reads back as written: ints are not negative,
/// and a float literal is one that does not read as an int.
pub open spec fn value_ok(v: ValueView) -> bool {
    match v {
        ValueView::I64(n) => n >= 0,
        ValueView::F64(t) => is_float_literal(t) && !is_int_literal(t),
        _ => true,
    }
}

pub open spec fn is_multiline(v: ValueView) -> bool {
    v is String && v->String_0.contains('\n')
}

/// The lines that the formatter writes for a pair.
pub open spec fn pair_lines(k: Seq<char>, v: ValueView) -> Seq<Seq<char>> {
    if is_multiline(v) {
        seq![k + seq![':', ' ', '"']] + split_lines(v->String_0).map_values(
            |l: Seq<char>| seq!['"'] + l,
        )
    } else {
        seq![k + seq![':', ' '] + render_value(v)]
    }
}

/// The lines that follow the first line of a pair and belong to its value.
pub open spec fn value_extra(v: ValueView) -> nat {
    if is_multiline(v) {
        split_lines(v->String_0).len()
    } else {
        0
    }
}

/// Each line followed by `\n`.
pub open spec fn lines_text(ls: Seq<Seq<char>>) -> Seq<char>
    decreases ls.len(),
{
    if ls.len() == 0 {
        Seq::empty()
    } else {
        lines_text(ls.drop_last()) + ls.last() + seq!['\n']
    }
}

proof fn lemma_digit_char(d: nat)
    requires
        d < 10,
    ensures
        is_digit(digit_char(d)),
        digit_value(digit_char(d)) == d,
        !is_ws(digit_char(d)),
{
    assert(digit_char(d) as u32 == d + 48);
}

proof fn lemma_decimal(n: nat)
    ensures
        decimal(n).len() > 0,
        all_digits(decimal(n)),
        digits_value(decimal(n)) == n,
    decreases n,
{
    lemma_digit_char(n % 10);
    if n >= 10 {
        lemma_decimal(n / 10);
        let d = decimal(n);
        assert(d.drop_last() =~= decimal(n / 10));
        assert forall|i: int| 0 <= i < d.len() implies is_digit(#[trigger] d[i]) by {
            if i < d.len() - 1 {
                assert(d[i] == decimal(n / 10)[i]);
            }
        }
        assert(n == (n / 10) * 10 + n % 10) by (nonlinear_arith);
        assert(d.last() == digit_char(n % 10));
        assert(digits_value(d) == digits_value(decimal(n / 10)) * 10 + digit_value(
            digit_char(n % 10),
        ));
    } else {
        let d = decimal(n);
        assert(d =~= seq![digit_char(n)]);
        assert(d.drop_last() =~= Seq::<char>::empty());
        assert(digits_value(d.drop_last()) == 0);
        assert(digits_value(d) == digits_value(d.drop_last()) * 10 + digit_value(d.last()));
    }
}

proof fn lemma_trim_id(s: Seq<char>)
    requires
        s.len() > 0,
        !is_ws(s[0]),
        !is_ws(s.last()),
    ensures
        trim(s) == s,
{
    assert(trim_start(s) == s);
    assert(trim_end(s) == s);
}

proof fn lemma_float_chars(t: Seq<char>)
    requires
        is_float_literal(t),
    ensures
        t.len() > 0,
        is_digit(t[0]),
        forall|i: int| 0 <= i < t.len() ==> !is_ws(#[trigger] t[i]),
{
    lemma_digits_end_bounds(t, 0);
    let a = digits_end(t, 0);
    let b = if a < t.len() && t[a] == '.' {
        digits_end(t, a + 1)
    } else {
        a
    };
    if a < t.len() && t[a] == '.' {
        lemma_digits_end_bounds(t, a + 1);
    }
    assert forall|i: int| 0 <= i < t.len() implies !is_ws(#[trigger] t[i]) by {
        if i < a {
            assert(is_digit(t[i]));
        } else if i < b {
            if i > a {
                assert(is_digit(t[i]));
            }
        } else if b < t.len() {
            let c = if b + 1 < t.len() && (t[b + 1] == '+' || t[b + 1] == '-') {
                b + 2
            } else {
                b + 1
            };
            lemma_digits_end_bounds(t, c);
            if i >= c {
                assert(is_digit(t[i]));
            }
        }
    }
}

#[verifier::rlimit(100)]
pub proof fn lemma_join_split(s: Seq<char>)
    ensures
        join_lines(split_lines(s)) == s,
        forall|i: int| 0 <= i < split_lines(s).len() ==> !(#[trigger] split_lines(s)[i]).contains('\n'),
    decreases s.len(),
{
    lemma_split_lines_len(s);
    if s.len() > 0 {
        let p = s.drop_last();
        lemma_join_split(p);
        lemma_split_lines_len(p);
        let r = split_lines(p);
        if s.last() == '\n' {
            assert(split_lines(s) == r.push(Seq::<char>::empty()));
            assert(r.push(Seq::<char>::empty()).drop_last() =~= r);
            assert(join_lines(split_lines(s)) =~= s);
            assert forall|i: int| 0 <= i < split_lines(s).len() implies !(#[trigger] split_lines(s)[i]).contains('\n') by {
                if i < r.len() {
                    assert(split_lines(s)[i] == r[i]);
                }
            }
        } else {
            let q = r.update(r.len() - 1, r.last().push(s.last()));
            assert(split_lines(s) == q);
            assert(s =~= p.push(s.last()));
            if r.len() == 1 {
                assert(join_lines(r) == r[0]);
                assert(join_lines(q) == q[0]);
                assert(join_lines(q) =~= s);
            } else {
                assert(q.drop_last() =~= r.drop_last());
                assert(join_lines(r) == join_lines(r.drop_last()) + seq!['\n'] + r.last());
                assert(join_lines(q) == join_lines(q.drop_last()) + seq!['\n'] + q.last());
                assert(join_lines(q) =~= s);
            }
            assert forall|i: int| 0 <= i < q.len() implies !(#[trigger] q[i]).contains('\n') by {
                if i < r.len() - 1 {
                    assert(q[i] == r[i]);
                } else {
                    assert(!r.last().contains('\n'));
                    if q[i].contains('\n') {
                        let j = choose|j: int| 0 <= j < q[i].len() && q[i][j] == '\n';
                        if j < r.last().len() {
                            assert(r.last()[j] == '\n');
                        }
                    }
                }
            }
        }
    }
}

#[verifier::rlimit(100)]
proof fn lemma_quote_lines(s: Seq<char>)
    ensures
        lines_text(split_lines(s).map_values(|l: Seq<char>| seq!['"'] + l)) == seq!['"']
            + quote_lines(s) + seq!['\n'],
    decreases s.len(),
{
    lemma_split_lines_len(s);
    if s.len() == 0 {
        let m = split_lines(s).map_values(|l: Seq<char>| seq!['"'] + l);
        assert(split_lines(s) == seq![Seq::<char>::empty()]);
        assert(m.len() == 1);
        assert(m[0] =~= seq!['"']);
        assert(m.drop_last() =~= Seq::<Seq<char>>::empty());
        assert(lines_text(m.drop_last()) == Seq::<char>::empty());
        assert(lines_text(m) == lines_text(m.drop_last()) + m.last() + seq!['\n']);
        assert(quote_lines(s) == Seq::<char>::empty());
        assert(lines_text(m) =~= seq!['"'] + quote_lines(s) + seq!['\n']);
    } else {
        let p = s.drop_last();
        lemma_quote_lines(p);
        lemma_split_lines_len(p);
        let r = split_lines(p);
        let mr = r.map_values(|l: Seq<char>| seq!['"'] + l);
        let m = split_lines(s).map_values(|l: Seq<char>| seq!['"'] + l);
        assert(p.len() < s.len());
        if s.last() == '\n' {
            assert(split_lines(s) == r.push(Seq::<char>::empty()));
            assert(m =~= mr.push(seq!['"']));
            assert(m.drop_last() =~= mr);
            assert(lines_text(m) == lines_text(mr) + seq!['"'] + seq!['\n']);
            assert(quote_lines(s) == quote_lines(p) + seq!['\n', '"']);
            assert(lines_text(m) =~= seq!['"'] + quote_lines(s) + seq!['\n']);
        } else {
            let q = r.update(r.len() - 1, r.last().push(s.last()));
            assert(split_lines(s) == q);
            assert(m.drop_last() =~= mr.drop_last());
            assert(m.last() =~= mr.last().push(s.last()));
            assert(lines_text(mr) == lines_text(mr.drop_last()) + mr.last() + seq!['\n']);
            assert(lines_text(m) == lines_text(m.drop_last()) + m.last() + seq!['\n']);
            assert(quote_lines(s) == quote_lines(p).push(s.last()));
            let x = lines_text(mr.drop_last()) + mr.last();
            let y = seq!['"'] + quote_lines(p);
            assert(x + seq!['\n'] =~= y + seq!['\n']);
            assert(x =~= y) by {
                assert(x =~= (x + seq!['\n']).drop_last());
                assert(y =~= (y + seq!['\n']).drop_last());
            }
            assert(lines_text(m) =~= x.push(s.last()) + seq!['\n']);
            assert(lines_text(m) =~= seq!['"'] + quote_lines(s) + seq!['\n']);
        }
    }
}

/// The formatter writes a pair as the lines of `pair_lines`.
pub proof fn lemma_pair_text(k: Seq<char>, v: ValueView)
    ensures
        lines_text(pair_lines(k, v)) == pair_text(k, v),
{
    let ls = pair_lines(k, v);
    if is_multiline(v) {
        let s = v->String_0;
        let mid = split_lines(s).map_values(|l: Seq<char>| seq!['"'] + l);
        lemma_quote_lines(s);
        lemma_lines_text_append(seq![k + seq![':', ' ', '"']], mid);
        let one = seq![k + seq![':', ' ', '"']];
        assert(one.drop_last() =~= Seq::<Seq<char>>::empty());
        assert(lines_text(one) == lines_text(one.drop_last()) + one.last() + seq!['\n']);
        assert(lines_text(Seq::<Seq<char>>::empty()) == Seq::<char>::empty());
        assert(lines_text(ls) =~= pair_text(k, v));
    } else {
        assert(ls.drop_last() =~= Seq::<Seq<char>>::empty());
        assert(lines_text(Seq::<Seq<char>>::empty()) == Seq::<char>::empty());
        assert(lines_text(ls) == lines_text(ls.drop_last()) + ls.last() + seq!['\n']);
        assert(lines_text(ls) =~= pair_text(k, v));
    }
}

pub proof fn lemma_lines_text_append(a: Seq<Seq<char>>, b: Seq<Seq<char>>)
    ensures
        lines_text(a + b) == lines_text(a) + lines_text(b),
    decreases b.len(),
{
    if b.len() == 0 {
        assert(a + b =~= a);
        assert(lines_text(a) + lines_text(b) =~= lines_text(a));
    } else {
        lemma_lines_text_append(a, b.drop_last());
        assert((a + b).drop_last() =~= a + b.drop_last());
        assert(lines_text(a + b) =~= lines_text(a) + lines_text(b));
    }
}


proof fn lemma_first_colon(k: Seq<char>, rest: Seq<char>)
    requires
        !k.contains(':'),
    ensures
        first_colon(k + seq![':'] + rest) == Some(k.len() as int),
{
    let t = k + seq![':'] + rest;
    let n = k.len() as int;
    assert(t[n] == ':');
    assert forall|m: int| 0 <= m < n implies t[m] != ':' by {
        assert(t[m] == k[m]);
    }
    let c = choose|c: int| 0 <= c < t.len() && t[c] == ':' && forall|m: int| 0 <= m < c ==> t[m] != ':';
    if c < n {
        assert(t[c] == k[c]);
        assert(k.contains(':'));
    }
}

/// The value text of a pair does not start or end with whitespace, and reads
/// back as the value.
#[verifier::rlimit(100)]
proof fn lemma_value_text(ls: Seq<Seq<char>>, i: int, c: int, v: ValueView)
    requires
        0 <= i < ls.len(),
        0 <= c,
        value_ok(v),
        !is_multiline(v),
        trim(ls[i]).skip(c + 1) == seq![' '] + render_value(v),
    ensures
        value_outcome(ls, i, c) == ValueOutcome::Parsed(v, 0),
{
    let r = render_value(v);
    let rest = seq![' '] + r;
    assert(rest.drop_first() =~= r);
    assert(is_ws(' '));
    match v {
        ValueView::Empty => {
            assert(trim_start(r) == r);
            assert(eq_ignore_case(r, word_empty()));
        },
        ValueView::Bool(b) => {
            assert(trim_start(r) == r);
            if b {
                assert(!eq_ignore_case(r, word_empty()));
                assert(eq_ignore_case(r, word_true()));
            } else {
                assert(!eq_ignore_case(r, word_empty())) by {
                    assert(ascii_lower(r[0]) != word_empty()[0]);
                }
                assert(!eq_ignore_case(r, word_true()));
                assert(eq_ignore_case(r, word_false()));
            }
        },
        ValueView::I64(n) => {
            lemma_decimal(n as nat);
            assert(r == decimal(n as nat));
            assert(is_digit(r[0]));
            assert(trim_start(r) == r);
            assert(!eq_ignore_case(r, word_empty())) by {
                assert(ascii_lower(r[0]) != word_empty()[0]);
            }
            assert(!eq_ignore_case(r, word_true())) by {
                if r.len() == 4 {
                    assert(ascii_lower(r[0]) != word_true()[0]);
                }
            }
            assert(!eq_ignore_case(r, word_false())) by {
                if r.len() == 5 {
                    assert(ascii_lower(r[0]) != word_false()[0]);
                }
            }
            assert(r != seq!['"']) by {
                if r.len() == 1 {
                    assert(r[0] != seq!['"'][0]);
                }
            }
            assert(is_int_literal(r));
        },
        ValueView::F64(t) => {
            lemma_float_chars(t);
            assert(r == t);
            assert(trim_start(r) == r);
            assert(!eq_ignore_case(r, word_empty())) by {
                if r.len() == 5 {
                    assert(ascii_lower(r[0]) != word_empty()[0]);
                }
            }
            assert(!eq_ignore_case(r, word_true())) by {
                if r.len() == 4 {
                    assert(ascii_lower(r[0]) != word_true()[0]);
                }
            }
            assert(!eq_ignore_case(r, word_false())) by {
                if r.len() == 5 {
                    assert(ascii_lower(r[0]) != word_false()[0]);
                }
            }
            assert(r != seq!['"']) by {
                if r.len() == 1 {
                    assert(r[0] != seq!['"'][0]);
                }
            }
        },
        ValueView::String(x) => {
            assert(r == seq!['"'] + x + seq!['"']);
            assert(r[0] == '"');
            assert(trim_start(r) == r);
            assert(!eq_ignore_case(r, word_empty())) by {
                if r.len() == 5 {
                    assert(ascii_lower(r[0]) != word_empty()[0]);
                }
            }
            assert(!eq_ignore_case(r, word_true())) by {
                if r.len() == 4 {
                    assert(ascii_lower(r[0]) != word_true()[0]);
                }
            }
            assert(!eq_ignore_case(r, word_false())) by {
                if r.len() == 5 {
                    assert(ascii_lower(r[0]) != word_false()[0]);
                }
            }
            assert(r.len() >= 2);
            assert(r != seq!['"']);
            assert(!is_digit(r[0]));
            assert(r.last() == '"');
            assert(r.subrange(1, r.len() - 1) =~= x);
        },
    }
    assert(trim_start(rest) == trim_start(r));
}

/// A pair that the formatter writes is read back by the scanner as the same
/// pair, whatever lines stand before it: the key line gives the key, and the
/// value is read from it (and, for a string of several lines, from the lines
/// that follow it, up to a line that does not start with `"`).
#[verifier::rlimit(100)]
pub proof fn law_pair_round_trip(
    before: Seq<Seq<char>>,
    after: Seq<Seq<char>>,
    k: Seq<char>,
    v: ValueView,
    pairs: Seq<(Seq<char>, ValueView)>,
)
    requires
        key_ok(k),
        value_ok(v),
        !map_of(pairs).contains_key(k),
        is_multiline(v) ==> opens_plain(after),
    ensures
        lines_text(pair_lines(k, v)) == pair_text(k, v),
        line_outcome(before + pair_lines(k, v) + after, before.len() as int, pairs)
            == LineOutcome::Pair(k, v, value_extra(v)),
{
    lemma_pair_text(k, v);
    let pl = pair_lines(k, v);
    let ls = before + pl + after;
    let i = before.len() as int;
    let n = k.len() as int;
    let line = ls[i];
    assert(line == pl[0]);
    let r = if is_multiline(v) {
        seq!['"']
    } else {
        render_value(v)
    };
    assert(line =~= k + seq![':'] + (seq![' '] + r));
    // the line is its own trim
    assert(r.len() > 0 && !is_ws(r.last())) by {
        match v {
            ValueView::I64(x) => {
                lemma_decimal(x as nat);
                assert(is_digit(r.last()));
            },
            ValueView::F64(t) => {
                lemma_float_chars(t);
                assert(!is_ws(t[t.len() - 1]));
            },
            _ => {},
        }
    }
    assert(line.last() == r.last());
    lemma_trim_id(line);
    let t = trim(line);
    assert(t == line);
    assert(t.len() > 0);
    assert(t != hash_pair()) by {
        if t == hash_pair() {
            assert(t[n] == ':');
        }
    }
    assert(t[0] == k[0]);
    lemma_first_colon(k, seq![' '] + r);
    assert(t.take(n) =~= k);
    assert(t.skip(n + 1) =~= seq![' '] + r);
    if is_multiline(v) {
        let x = v->String_0;
        let body = split_lines(x);
        lemma_split_lines_len(x);
        lemma_join_split(x);
        let quoted_body = body.map_values(|l: Seq<char>| seq!['"'] + l);
        let rest = seq![' '] + r;
        assert(rest.drop_first() =~= r);
        assert(is_ws(' '));
        assert(trim_start(r) == r);
        let w = trim_start(rest);
        assert(w == r);
        assert(!eq_ignore_case(w, word_empty()));
        assert(!eq_ignore_case(w, word_true()));
        assert(!eq_ignore_case(w, word_false()));
        // the string block
        let m = body.len() as int;
        assert forall|j: int| i + 1 <= j < i + 1 + m implies quoted(#[trigger] ls[j]) && string_line(
            ls[j],
        ) == body[j - i - 1] by {
            assert(ls[j] == pl[j - i]);
            assert(pl[j - i] == quoted_body[j - i - 1]);
            let q = seq!['"'] + body[j - i - 1];
            assert(trim_start(q) == q);
            assert(q.drop_first() =~= body[j - i - 1]);
        }
        assert(ls.len() == i + 1 + m + after.len());
        if after.len() > 0 {
            assert(ls[i + 1 + m] == after[0]);
        }
        assert forall|j: int| i + 1 <= j <= i + 1 + m implies string_end(ls, j) == i + 1 + m by {
            lemma_string_end_from(ls, j, i + 1 + m);
        }
        let e = string_end(ls, i + 1);
        assert(e == i + 1 + m);
        assert(ls.subrange(i + 1, e).map_values(|l| string_line(l)) =~= body);
    } else {
        lemma_value_text(ls, i, n, v);
    }
}

proof fn lemma_string_end_from(ls: Seq<Seq<char>>, j: int, e: int)
    requires
        0 <= j <= e <= ls.len(),
        forall|m: int| j <= m < e ==> quoted(#[trigger] ls[m]),
        e < ls.len() ==> !quoted(ls[e]),
    ensures
        string_end(ls, j) == e,
    decreases e - j,
{
    if j < e {
        lemma_string_end_from(ls, j + 1, e);
    }
}


/// `s` followed by what a scan from an empty layout and error list gathered.
pub open spec fn joined(s: ScanState, rest: ScanState) -> ScanState {
    ScanState { layout: s.layout + rest.layout, pairs: rest.pairs, errors: s.errors + rest.errors }
}

/// A state with the given pairs and nothing else.
pub open spec fn fresh_state(pairs: Seq<(Seq<char>, ValueView)>) -> ScanState {
    ScanState { layout: Seq::empty(), pairs, errors: Seq::empty() }
}

proof fn lemma_comment_end_eq(ls1: Seq<Seq<char>>, ls2: Seq<Seq<char>>, j: int)
    requires
        ls1.len() == ls2.len(),
        0 <= j,
        forall|k: int| j <= k < ls1.len() ==> ls1[k] == ls2[k],
    ensures
        comment_end(ls1, j) == comment_end(ls2, j),
    decreases ls1.len() - j,
{
    if j < ls1.len() {
        lemma_comment_end_eq(ls1, ls2, j + 1);
    }
}

proof fn lemma_string_end_eq(ls1: Seq<Seq<char>>, ls2: Seq<Seq<char>>, j: int)
    requires
        ls1.len() == ls2.len(),
        0 <= j,
        forall|k: int| j <= k < ls1.len() ==> ls1[k] == ls2[k],
    ensures
        string_end(ls1, j) == string_end(ls2, j),
    decreases ls1.len() - j,
{
    if j < ls1.len() {
        lemma_string_end_eq(ls1, ls2, j + 1);
    }
}

/// What a line gives depends only on that line and the ones after it.
#[verifier::rlimit(100)]
proof fn lemma_line_outcome_eq(
    ls1: Seq<Seq<char>>,
    ls2: Seq<Seq<char>>,
    j: int,
    pairs: Seq<(Seq<char>, ValueView)>,
)
    requires
        ls1.len() == ls2.len(),
        0 <= j < ls1.len(),
        forall|k: int| j <= k < ls1.len() ==> ls1[k] == ls2[k],
    ensures
        line_outcome(ls1, j, pairs) == line_outcome(ls2, j, pairs),
{
    lemma_comment_end_eq(ls1, ls2, j + 1);
    lemma_string_end_eq(ls1, ls2, j + 1);
    lemma_comment_end(ls1, j + 1);
    lemma_string_end(ls1, j + 1);
    match comment_end(ls1, j + 1) {
        Some(e) => {
            assert(ls1.subrange(j + 1, e) =~= ls2.subrange(j + 1, e));
        },
        None => {},
    }
    let e = string_end(ls1, j + 1);
    if e > j + 1 {
        assert(ls1.subrange(j + 1, e) =~= ls2.subrange(j + 1, e));
    }
}

/// A scan from line `j` depends only on the lines from `j` on.
proof fn lemma_scan_suffix(ls1: Seq<Seq<char>>, ls2: Seq<Seq<char>>, j: int, st: ScanState)
    requires
        ls1.len() == ls2.len(),
        0 <= j,
        forall|k: int| j <= k < ls1.len() ==> ls1[k] == ls2[k],
    ensures
        scan(ls1, j, st) == scan(ls2, j, st),
    decreases ls1.len() - j,
{
    if j < ls1.len() {
        lemma_line_outcome_eq(ls1, ls2, j, st.pairs);
        let (next, k) = step(ls1, j, st);
        assert(step(ls2, j, st) == (next, k));
        if k > j && k <= ls1.len() {
            lemma_scan_suffix(ls1, ls2, k, next);
        }
    }
}

/// A scan only appends to the layout and the errors it starts from.
proof fn lemma_scan_frame(ls: Seq<Seq<char>>, j: int, st: ScanState)
    ensures
        scan(ls, j, st) == joined(st, scan(ls, j, fresh_state(st.pairs))),
    decreases ls.len() - j,
{
    let e = fresh_state(st.pairs);
    if j < 0 || j >= ls.len() {
        assert(joined(st, e) =~= st);
    } else {
        let (n, k) = step(ls, j, st);
        let (ne, ke) = step(ls, j, e);
        assert(ke == k);
        assert(n =~= joined(st, ne));
        if k <= j || k > ls.len() {
        } else {
            lemma_scan_frame(ls, k, n);
            lemma_scan_frame(ls, k, ne);
            assert(ne.pairs == n.pairs);
            let rest = scan(ls, k, fresh_state(n.pairs));
            assert(joined(n, rest) =~= joined(st, joined(ne, rest)));
        }
    }
}

/// Recovery isolation: a line that fails consumes only itself. Take two files
/// that differ only at line `i`, where line `i` of the second fails and line
/// `i` of the first is a blank line, a one-line comment, or fails too. Then,
/// scanned from line `i` in the same state, both read every later line the
/// same way: each result is the state after line `i` followed by one common
/// remainder, and the two states after line `i` differ only in the layout
/// entry and the error for that line.
pub proof fn law_recovery_isolation(
    ls1: Seq<Seq<char>>,
    ls2: Seq<Seq<char>>,
    i: int,
    st: ScanState,
)
    requires
        ls1.len() == ls2.len(),
        0 <= i < ls1.len(),
        forall|k: int| 0 <= k < ls1.len() && k != i ==> ls1[k] == ls2[k],
        line_outcome(ls2, i, st.pairs) is Failed,
        line_outcome(ls1, i, st.pairs) is Failed || (line_outcome(ls1, i, st.pairs) is Entry
            && line_outcome(ls1, i, st.pairs)->Entry_1 == 0),
    ensures
        ({
            let rest = scan(ls2, i + 1, fresh_state(st.pairs));
            let (s1, j1) = step(ls1, i, st);
            let (s2, j2) = step(ls2, i, st);
            &&& j1 == i + 1 && j2 == i + 1
            &&& s1.pairs == st.pairs && s2.pairs == st.pairs
            &&& s1.layout.drop_last() == st.layout && s2.layout.drop_last() == st.layout
            &&& s2.layout.last() == EntryView::Comment(ls2[i])
            &&& s2.errors == st.errors.push(((i + 1) as nat, line_outcome(ls2, i, st.pairs)->Failed_0))
            &&& scan(ls1, i, st) == joined(s1, rest)
            &&& scan(ls2, i, st) == joined(s2, rest)
        }),
{
    let (s1, j1) = step(ls1, i, st);
    let (s2, j2) = step(ls2, i, st);
    assert(s1.layout.drop_last() =~= st.layout);
    assert(s2.layout.drop_last() =~= st.layout);
    lemma_scan_suffix(ls1, ls2, i + 1, s1);
    lemma_scan_suffix(ls1, ls2, i + 1, fresh_state(st.pairs));
    lemma_scan_frame(ls1, i + 1, s1);
    lemma_scan_frame(ls2, i + 1, s2);
    if i + 1 > ls1.len() {
    }
}


/// A comment that the scanner reads back as a comment, and whose lines do not
/// end the block early.
pub open spec fn comment_ok(c: Seq<char>) -> bool {
    if c.contains('\n') {
        forall|j: int| 0 <= j < split_lines(c).len() ==> trim(#[trigger] split_lines(c)[j]) != hash_pair()
    } else {
        trim(seq!['#'] + c) != hash_pair()
    }
}

/// The lines that the formatter writes for a layout entry.
pub open spec fn entry_lines(e: EntryView, m: Map<Seq<char>, ValueView>) -> Seq<Seq<char>> {
    match e {
        EntryView::Empty => seq![Seq::<char>::empty()],
        EntryView::Comment(c) => if c.contains('\n') {
            seq![hash_pair()] + split_lines(c) + seq![hash_pair()]
        } else {
            seq![seq!['#'] + c]
        },
        EntryView::Key(k) => if m.contains_key(k) {
            pair_lines(k, m[k])
        } else {
            Seq::empty()
        },
    }
}

pub open spec fn layout_lines(l: Seq<EntryView>, m: Map<Seq<char>, ValueView>) -> Seq<Seq<char>>
    decreases l.len(),
{
    if l.len() == 0 {
        Seq::empty()
    } else {
        layout_lines(l.drop_last(), m) + entry_lines(l.last(), m)
    }
}

pub open spec fn extra_lines(pairs: Seq<(Seq<char>, ValueView)>, l: Seq<EntryView>) -> Seq<Seq<char>>
    decreases pairs.len(),
{
    if pairs.len() == 0 {
        Seq::empty()
    } else {
        extra_lines(pairs.drop_last(), l) + if in_layout(l, pairs.last().0) {
            Seq::empty()
        } else {
            pair_lines(pairs.last().0, pairs.last().1)
        }
    }
}

pub open spec fn header_line(version: nat) -> Seq<char> {
    format_prefix() + decimal(version)
}

/// Every line of the text that the formatter writes.
pub open spec fn file_lines(
    l: Seq<EntryView>,
    pairs: Seq<(Seq<char>, ValueView)>,
    version: nat,
) -> Seq<Seq<char>> {
    seq![header_line(version)] + layout_lines(l, map_of(pairs)) + extra_lines(pairs, l)
}

proof fn lemma_lines_text_join(ls: Seq<Seq<char>>)
    requires
        ls.len() > 0,
    ensures
        lines_text(ls) == join_lines(ls) + seq!['\n'],
    decreases ls.len(),
{
    if ls.len() == 1 {
        assert(ls.drop_last() =~= Seq::<Seq<char>>::empty());
        assert(lines_text(ls.drop_last()) == Seq::<char>::empty());
        assert(lines_text(ls) =~= join_lines(ls) + seq!['\n']);
    } else {
        lemma_lines_text_join(ls.drop_last());
        assert(lines_text(ls) =~= join_lines(ls) + seq!['\n']);
    }
}

#[verifier::rlimit(100)]
proof fn lemma_entry_text(e: EntryView, m: Map<Seq<char>, ValueView>)
    ensures
        lines_text(entry_lines(e, m)) == entry_text(e, m),
{
    let empty = Seq::<Seq<char>>::empty();
    assert(lines_text(empty) == Seq::<char>::empty());
    match e {
        EntryView::Empty => {
            let ls = seq![Seq::<char>::empty()];
            assert(ls.drop_last() =~= empty);
            assert(lines_text(ls) =~= entry_text(e, m));
        },
        EntryView::Comment(c) => {
            if c.contains('\n') {
                let mid = split_lines(c);
                lemma_split_lines_len(c);
                lemma_join_split(c);
                lemma_lines_text_join(mid);
                let h = seq![hash_pair()];
                assert(h.drop_last() =~= empty);
                assert(lines_text(h) == lines_text(h.drop_last()) + h.last() + seq!['\n']);
                lemma_lines_text_append(h, mid);
                lemma_lines_text_append(h + mid, h);
                assert(lines_text(entry_lines(e, m)) =~= entry_text(e, m));
            } else {
                let ls = seq![seq!['#'] + c];
                assert(ls.drop_last() =~= empty);
                assert(lines_text(ls) =~= entry_text(e, m));
            }
        },
        EntryView::Key(k) => {
            if m.contains_key(k) {
                lemma_pair_text(k, m[k]);
            }
        },
    }
}

proof fn lemma_layout_lines_text(l: Seq<EntryView>, m: Map<Seq<char>, ValueView>)
    ensures
        lines_text(layout_lines(l, m)) == layout_text(l, m),
    decreases l.len(),
{
    if l.len() == 0 {
        assert(lines_text(Seq::<Seq<char>>::empty()) == Seq::<char>::empty());
    } else {
        lemma_layout_lines_text(l.drop_last(), m);
        lemma_entry_text(l.last(), m);
        lemma_lines_text_append(layout_lines(l.drop_last(), m), entry_lines(l.last(), m));
    }
}

proof fn lemma_extra_lines_text(pairs: Seq<(Seq<char>, ValueView)>, l: Seq<EntryView>)
    ensures
        lines_text(extra_lines(pairs, l)) == extra_text(pairs, l),
    decreases pairs.len(),
{
    if pairs.len() == 0 {
        assert(lines_text(Seq::<Seq<char>>::empty()) == Seq::<char>::empty());
    } else {
        lemma_extra_lines_text(pairs.drop_last(), l);
        let last = if in_layout(l, pairs.last().0) {
            Seq::<Seq<char>>::empty()
        } else {
            pair_lines(pairs.last().0, pairs.last().1)
        };
        lemma_lines_text_append(extra_lines(pairs.drop_last(), l), last);
        if in_layout(l, pairs.last().0) {
            assert(lines_text(last) == Seq::<char>::empty());
            assert(extra_text(pairs, l) =~= extra_text(pairs.drop_last(), l));
        } else {
            lemma_pair_text(pairs.last().0, pairs.last().1);
        }
    }
}

/// The text that the formatter writes is its lines joined by `\n`.
#[verifier::rlimit(100)]
proof fn lemma_file_text_lines(l: Seq<EntryView>, pairs: Seq<(Seq<char>, ValueView)>, version: nat)
    ensures
        file_text(l, pairs, version) == join_lines(file_lines(l, pairs, version)),
{
    let m = map_of(pairs);
    let h = seq![header_line(version)];
    assert(h.drop_last() =~= Seq::<Seq<char>>::empty());
    assert(lines_text(Seq::<Seq<char>>::empty()) == Seq::<char>::empty());
    assert(lines_text(h) =~= header_text(version));
    lemma_layout_lines_text(l, m);
    lemma_extra_lines_text(pairs, l);
    lemma_lines_text_append(h, layout_lines(l, m));
    lemma_lines_text_append(h + layout_lines(l, m), extra_lines(pairs, l));
    let all = file_lines(l, pairs, version);
    assert(all == h + layout_lines(l, m) + extra_lines(pairs, l));
    lemma_lines_text_join(all);
    let full = header_text(version) + layout_text(l, m) + extra_text(pairs, l);
    assert(full == join_lines(all) + seq!['\n']);
    assert(full.drop_last() =~= join_lines(all));
}


pub open spec fn no_newlines(ls: Seq<Seq<char>>) -> bool {
    forall|j: int| 0 <= j < ls.len() ==> !(#[trigger] ls[j]).contains('\n')
}

proof fn lemma_split_plain(x: Seq<char>, y: Seq<char>)
    requires
        !y.contains('\n'),
    ensures
        split_lines(y) == seq![y],
        split_lines(x + seq!['\n'] + y) == split_lines(x).push(y),
    decreases y.len(),
{
    if y.len() == 0 {
        assert(y =~= Seq::<char>::empty());
        assert(x + seq!['\n'] + y =~= x.push('\n'));
        assert((x.push('\n')).drop_last() =~= x);
    } else {
        let p = y.drop_last();
        assert(!p.contains('\n')) by {
            if p.contains('\n') {
                let j = choose|j: int| 0 <= j < p.len() && p[j] == '\n';
                assert(y[j] == '\n');
            }
        }
        assert(y.last() != '\n') by {
            assert(y[y.len() - 1] == y.last());
        }
        lemma_split_plain(x, p);
        assert(y.drop_last() =~= p);
        assert(split_lines(y) =~= seq![y]) by {
            assert(split_lines(y) == split_lines(p).update(0, p.push(y.last())));
            assert(p.push(y.last()) =~= y);
        }
        let z = x + seq!['\n'] + y;
        assert(z.drop_last() =~= x + seq!['\n'] + p);
        assert(z.last() == y.last());
        lemma_split_lines_len(x);
        assert(split_lines(z) =~= split_lines(x).push(y)) by {
            let r = split_lines(x + seq!['\n'] + p);
            assert(r == split_lines(x).push(p));
            assert(split_lines(z) == r.update(r.len() - 1, r.last().push(y.last())));
            assert(p.push(y.last()) =~= y);
        }
    }
}

proof fn lemma_split_join(ls: Seq<Seq<char>>)
    requires
        ls.len() > 0,
        no_newlines(ls),
    ensures
        split_lines(join_lines(ls)) == ls,
    decreases ls.len(),
{
    if ls.len() == 1 {
        assert(!ls[0].contains('\n'));
        lemma_split_plain(Seq::<char>::empty(), ls[0]);
        assert(split_lines(join_lines(ls)) =~= ls);
    } else {
        let p = ls.drop_last();
        assert(no_newlines(p)) by {
            assert forall|j: int| 0 <= j < p.len() implies !(#[trigger] p[j]).contains('\n') by {
                assert(p[j] == ls[j]);
            }
        }
        lemma_split_join(p);
        assert(!ls[ls.len() - 1].contains('\n'));
        lemma_split_plain(join_lines(p), ls.last());
        assert(split_lines(join_lines(ls)) =~= ls);
    }
}

proof fn lemma_no_newlines_append(a: Seq<Seq<char>>, b: Seq<Seq<char>>)
    requires
        no_newlines(a),
        no_newlines(b),
    ensures
        no_newlines(a + b),
{
    assert forall|j: int| 0 <= j < (a + b).len() implies !(#[trigger] (a + b)[j]).contains('\n') by {
        if j < a.len() {
            assert((a + b)[j] == a[j]);
        } else {
            assert((a + b)[j] == b[j - a.len()]);
        }
    }
}

proof fn lemma_no_newline_concat(a: Seq<char>, b: Seq<char>)
    requires
        !a.contains('\n'),
        !b.contains('\n'),
    ensures
        !(a + b).contains('\n'),
{
    if (a + b).contains('\n') {
        let j = choose|j: int| 0 <= j < (a + b).len() && (a + b)[j] == '\n';
        if j < a.len() {
            assert(a[j] == '\n');
        } else {
            assert(b[j - a.len()] == '\n');
        }
    }
}

#[verifier::rlimit(100)]
proof fn lemma_pair_lines_plain(k: Seq<char>, v: ValueView)
    requires
        key_ok(k),
        value_ok(v),
    ensures
        no_newlines(pair_lines(k, v)),
        pair_lines(k, v).len() == value_extra(v) + 1,
{
    let ls = pair_lines(k, v);
    let colon_space = seq![':', ' '];
    assert(!colon_space.contains('\n')) by {
        if colon_space.contains('\n') {
            let j = choose|j: int| 0 <= j < colon_space.len() && colon_space[j] == '\n';
        }
    }
    if is_multiline(v) {
        let x = v->String_0;
        lemma_join_split(x);
        let body = split_lines(x);
        let opener = seq![':', ' ', '"'];
        assert(!opener.contains('\n')) by {
            if opener.contains('\n') {
                let j = choose|j: int| 0 <= j < opener.len() && opener[j] == '\n';
            }
        }
        lemma_no_newline_concat(k, opener);
        let q = seq!['"'];
        assert(!q.contains('\n')) by {
            if q.contains('\n') {
                let j = choose|j: int| 0 <= j < q.len() && q[j] == '\n';
            }
        }
        let mid = body.map_values(|l: Seq<char>| seq!['"'] + l);
        assert forall|j: int| 0 <= j < mid.len() implies !(#[trigger] mid[j]).contains('\n') by {
            lemma_no_newline_concat(q, body[j]);
        }
        assert(!Seq::<char>::empty().contains('\n'));
        assert forall|j: int| 0 <= j < ls.len() implies !(#[trigger] ls[j]).contains('\n') by {
            if j == 0 {
                assert(ls[0] == k + opener);
            } else {
                assert(ls[j] == mid[j - 1]);
            }
        }
    } else {
        let r = render_value(v);
        assert(!r.contains('\n')) by {
            if r.contains('\n') {
                let j = choose|j: int| 0 <= j < r.len() && r[j] == '\n';
                match v {
                    ValueView::I64(n) => {
                        lemma_decimal(n as nat);
                        assert(is_digit(r[j]));
                    },
                    ValueView::F64(t) => {
                        lemma_float_chars(t);
                        assert(!is_ws(r[j]));
                    },
                    ValueView::String(x) => {
                        if 0 < j < r.len() - 1 {
                            assert(x[j - 1] == '\n');
                        }
                    },
                    _ => {},
                }
            }
        }
        lemma_no_newline_concat(k, colon_space);
        lemma_no_newline_concat(k + colon_space, r);
        assert(ls[0] == k + colon_space + r);
    }
}


/// What the scanner records in the layout for the lines of an entry.
pub open spec fn read_layout(e: EntryView, m: Map<Seq<char>, ValueView>) -> Seq<EntryView> {
    match e {
        EntryView::Empty => seq![EntryView::Empty],
        EntryView::Comment(c) => if c.contains('\n') {
            seq![EntryView::Comment(c)]
        } else {
            seq![EntryView::Comment(trim(seq!['#'] + c).drop_first())]
        },
        EntryView::Key(k) => if m.contains_key(k) {
            seq![EntryView::Key(k)]
        } else {
            Seq::empty()
        },
    }
}

/// The pair that an entry's lines give, if any.
pub open spec fn entry_pair(e: EntryView, m: Map<Seq<char>, ValueView>) -> Seq<(Seq<char>, ValueView)> {
    match e {
        EntryView::Key(k) => if m.contains_key(k) {
            seq![(k, m[k])]
        } else {
            Seq::empty()
        },
        _ => Seq::empty(),
    }
}

/// An entry whose lines the scanner reads back without an error.
pub open spec fn entry_ok(e: EntryView, m: Map<Seq<char>, ValueView>) -> bool {
    match e {
        EntryView::Comment(c) => comment_ok(c),
        EntryView::Key(k) => m.contains_key(k) ==> key_ok(k) && value_ok(m[k]),
        _ => true,
    }
}

pub open spec fn after(st: ScanState, lay: Seq<EntryView>, ps: Seq<(Seq<char>, ValueView)>) -> ScanState {
    ScanState { layout: st.layout + lay, pairs: st.pairs + ps, errors: st.errors }
}

proof fn lemma_trim_end_first(s: Seq<char>)
    requires
        s.len() > 0,
        !is_ws(s[0]),
    ensures
        trim_end(s).len() > 0,
        trim_end(s)[0] == s[0],
    decreases s.len(),
{
    if is_ws(s.last()) {
        assert(s.len() > 1);
        assert(s.drop_last()[0] == s[0]);
        lemma_trim_end_first(s.drop_last());
    }
}

proof fn lemma_comment_end_at(ls: Seq<Seq<char>>, j: int, e: int)
    requires
        0 <= j <= e < ls.len(),
        forall|m: int| j <= m < e ==> trim(#[trigger] ls[m]) != hash_pair(),
        trim(ls[e]) == hash_pair(),
    ensures
        comment_end(ls, j) == Some(e),
    decreases e - j,
{
    if j < e {
        lemma_comment_end_at(ls, j + 1, e);
    }
}

proof fn lemma_line_start(line: Seq<char>, rest: Seq<Seq<char>>)
    requires
        line.len() > 0,
        !is_ws(line[0]),
        line[0] != '"',
    ensures
        opens_plain(seq![line] + rest),
{
    assert((seq![line] + rest)[0] == line);
    assert(trim_start(line) == line);
}

proof fn lemma_pair_start(k: Seq<char>, v: ValueView, post: Seq<Seq<char>>)
    requires
        key_ok(k),
    ensures
        opens_plain(pair_lines(k, v) + post),
{
    let b = pair_lines(k, v);
    let line = b[0];
    assert(line[0] == k[0]);
    lemma_line_start(line, b.drop_first() + post);
    assert(seq![line] + (b.drop_first() + post) =~= b + post);
}

proof fn lemma_entry_start(e: EntryView, m: Map<Seq<char>, ValueView>, post: Seq<Seq<char>>)
    requires
        entry_ok(e, m),
        opens_plain(post),
    ensures
        opens_plain(entry_lines(e, m) + post),
{
    let b = entry_lines(e, m);
    match e {
        EntryView::Empty => {
            assert((b + post)[0] == Seq::<char>::empty());
        },
        EntryView::Comment(c) => {
            let line = b[0];
            assert(line[0] == '#');
            lemma_line_start(line, b.drop_first() + post);
            assert(seq![line] + (b.drop_first() + post) =~= b + post);
        },
        EntryView::Key(k) => {
            if m.contains_key(k) {
                lemma_pair_start(k, m[k], post);
            } else {
                assert(b + post =~= post);
            }
        },
    }
}

proof fn lemma_extra_start(pairs: Seq<(Seq<char>, ValueView)>, l: Seq<EntryView>, post: Seq<Seq<char>>)
    requires
        forall|i: int| 0 <= i < pairs.len() ==> key_ok((#[trigger] pairs[i]).0),
        opens_plain(post),
    ensures
        opens_plain(extra_lines(pairs, l) + post),
    decreases pairs.len(),
{
    if pairs.len() == 0 {
        assert(extra_lines(pairs, l) + post =~= post);
    } else {
        let pp = pairs.drop_last();
        assert forall|i: int| 0 <= i < pp.len() implies key_ok((#[trigger] pp[i]).0) by {
            assert(pp[i] == pairs[i]);
        }
        assert(pairs[pairs.len() - 1] == pairs.last());
        let tail = if in_layout(l, pairs.last().0) {
            Seq::<Seq<char>>::empty()
        } else {
            pair_lines(pairs.last().0, pairs.last().1)
        };
        if in_layout(l, pairs.last().0) {
            assert(tail + post =~= post);
        } else {
            lemma_pair_start(pairs.last().0, pairs.last().1, post);
        }
        lemma_extra_start(pp, l, tail + post);
        assert(extra_lines(pairs, l) + post =~= extra_lines(pp, l) + (tail + post));
    }
}

#[verifier::rlimit(100)]
proof fn lemma_scan_pair(
    pre: Seq<Seq<char>>,
    k: Seq<char>,
    m: Map<Seq<char>, ValueView>,
    post: Seq<Seq<char>>,
    st: ScanState,
)
    requires
        m.contains_key(k),
        key_ok(k),
        value_ok(m[k]),
        !map_of(st.pairs).contains_key(k),
        opens_plain(post),
    ensures
        ({
            let e = EntryView::Key(k);
            let b = entry_lines(e, m);
            let ls = pre + b + post;
            scan(ls, pre.len() as int, st) == scan(
                ls,
                (pre.len() + b.len()) as int,
                after(st, read_layout(e, m), entry_pair(e, m)),
            )
        }),
{
    let e = EntryView::Key(k);
    let v = m[k];
    let b = entry_lines(e, m);
    assert(b == pair_lines(k, v));
    let ls = pre + b + post;
    let i = pre.len() as int;
    let goal = after(st, read_layout(e, m), entry_pair(e, m));
    law_pair_round_trip(pre, post, k, v, st.pairs);
    lemma_pair_lines_plain(k, v);
    let (n, j) = step(ls, i, st);
    assert(j == i + 1 + value_extra(v));
    assert(ls.len() == pre.len() + b.len() + post.len());
    assert(scan(ls, i, st) == scan(ls, j, n));
    assert(n =~= goal);
}

#[verifier::rlimit(100)]
proof fn lemma_scan_comment(
    pre: Seq<Seq<char>>,
    c: Seq<char>,
    m: Map<Seq<char>, ValueView>,
    post: Seq<Seq<char>>,
    st: ScanState,
)
    requires
        comment_ok(c),
    ensures
        ({
            let e = EntryView::Comment(c);
            let b = entry_lines(e, m);
            let ls = pre + b + post;
            scan(ls, pre.len() as int, st) == scan(
                ls,
                (pre.len() + b.len()) as int,
                after(st, read_layout(e, m), entry_pair(e, m)),
            )
        }),
{
    let e = EntryView::Comment(c);
    let b = entry_lines(e, m);
    let ls = pre + b + post;
    let i = pre.len() as int;
    let goal = after(st, read_layout(e, m), entry_pair(e, m));
    assert(ls.len() == pre.len() + b.len() + post.len());
    if c.contains('\n') {
        let body = split_lines(c);
        lemma_join_split(c);
        lemma_split_lines_len(c);
        let nb = body.len() as int;
        assert(ls[i] == hash_pair());
        lemma_trim_id(hash_pair());
        assert forall|q: int| i + 1 <= q < i + 1 + nb implies trim(#[trigger] ls[q]) != hash_pair() by {
            assert(ls[q] == body[q - i - 1]);
        }
        assert(ls[i + 1 + nb] == hash_pair());
        lemma_comment_end_at(ls, i + 1, i + 1 + nb);
        assert(ls.subrange(i + 1, i + 1 + nb) =~= body);
        let (n, j) = step(ls, i, st);
        assert(j == i + 2 + nb);
        assert(n =~= goal);
        assert(scan(ls, i, st) == scan(ls, j, n));
    } else {
        let x = seq!['#'] + c;
        assert(ls[i] == x);
        assert(trim_start(x) == x);
        lemma_trim_end_first(x);
        let t = trim(x);
        assert(t.len() > 0 && t[0] == '#');
        let (n, j) = step(ls, i, st);
        assert(j == i + 1);
        assert(n =~= goal);
        assert(scan(ls, i, st) == scan(ls, j, n));
    }
}

/// The scanner reads the lines of one entry in one or two steps, with no error.
#[verifier::rlimit(100)]
proof fn lemma_scan_entry(
    pre: Seq<Seq<char>>,
    e: EntryView,
    m: Map<Seq<char>, ValueView>,
    post: Seq<Seq<char>>,
    st: ScanState,
)
    requires
        entry_ok(e, m),
        forall|k: Seq<char>| e == EntryView::Key(k) && m.contains_key(k) ==> !map_of(st.pairs).contains_key(k),
        opens_plain(post),
    ensures
        ({
            let b = entry_lines(e, m);
            let ls = pre + b + post;
            scan(ls, pre.len() as int, st) == scan(
                ls,
                (pre.len() + b.len()) as int,
                after(st, read_layout(e, m), entry_pair(e, m)),
            )
        }),
{
    let b = entry_lines(e, m);
    let ls = pre + b + post;
    let i = pre.len() as int;
    let goal = after(st, read_layout(e, m), entry_pair(e, m));
    match e {
        EntryView::Empty => {
            assert(ls[i] == Seq::<char>::empty());
            assert(trim(ls[i]).len() == 0);
            let (n, j) = step(ls, i, st);
            assert(j == i + 1);
            assert(n =~= goal);
            assert(ls.len() == pre.len() + 1 + post.len());
            assert(scan(ls, i, st) == scan(ls, i + 1, n));
        },
        EntryView::Comment(c) => {
            lemma_scan_comment(pre, c, m, post, st);
        },
        EntryView::Key(k) => {
            if m.contains_key(k) {
                lemma_scan_pair(pre, k, m, post, st);
            } else {
                assert(b =~= Seq::<Seq<char>>::empty());
                assert(goal =~= st);
                assert(ls =~= pre + post);
            }
        },
    }
}


pub open spec fn read_layout_all(l: Seq<EntryView>, m: Map<Seq<char>, ValueView>) -> Seq<EntryView>
    decreases l.len(),
{
    if l.len() == 0 {
        Seq::empty()
    } else {
        read_layout_all(l.drop_last(), m) + read_layout(l.last(), m)
    }
}

/// The pairs that the layout's key lines give, in layout order.
pub open spec fn printed_pairs(l: Seq<EntryView>, m: Map<Seq<char>, ValueView>) -> Seq<
    (Seq<char>, ValueView),
>
    decreases l.len(),
{
    if l.len() == 0 {
        Seq::empty()
    } else {
        printed_pairs(l.drop_last(), m) + entry_pair(l.last(), m)
    }
}

pub open spec fn single(k: Seq<char>, v: ValueView) -> Map<Seq<char>, ValueView> {
    Map::empty().insert(k, v)
}

pub open spec fn read_extra(pairs: Seq<(Seq<char>, ValueView)>, l: Seq<EntryView>) -> Seq<EntryView>
    decreases pairs.len(),
{
    if pairs.len() == 0 {
        Seq::empty()
    } else {
        read_extra(pairs.drop_last(), l) + if in_layout(l, pairs.last().0) {
            Seq::empty()
        } else {
            read_layout(EntryView::Key(pairs.last().0), single(pairs.last().0, pairs.last().1))
        }
    }
}

/// The pairs whose key the layout does not hold, in order.
pub open spec fn extra_pairs(pairs: Seq<(Seq<char>, ValueView)>, l: Seq<EntryView>) -> Seq<
    (Seq<char>, ValueView),
>
    decreases pairs.len(),
{
    if pairs.len() == 0 {
        Seq::empty()
    } else {
        extra_pairs(pairs.drop_last(), l) + if in_layout(l, pairs.last().0) {
            Seq::empty()
        } else {
            seq![pairs.last()]
        }
    }
}

pub open spec fn distinct_layout_keys(l: Seq<EntryView>) -> bool {
    forall|i: int, j: int|
        0 <= i < j < l.len() && (#[trigger] l[i]) is Key && (#[trigger] l[j]) is Key ==> l[i]->Key_0
            != l[j]->Key_0
}

proof fn lemma_map_of_has(p: Seq<(Seq<char>, ValueView)>, i: int)
    requires
        0 <= i < p.len(),
    ensures
        map_of(p).contains_key(p[i].0),
    decreases p.len(),
{
    if i < p.len() - 1 {
        lemma_map_of_has(p.drop_last(), i);
    }
}

proof fn lemma_absent_concat(a: Seq<(Seq<char>, ValueView)>, b: Seq<(Seq<char>, ValueView)>, k: Seq<char>)
    requires
        !map_of(a).contains_key(k),
        forall|i: int| 0 <= i < b.len() ==> (#[trigger] b[i]).0 != k,
    ensures
        !map_of(a + b).contains_key(k),
{
    assert forall|i: int| 0 <= i < (a + b).len() implies (#[trigger] (a + b)[i]).0 != k by {
        if i < a.len() {
            assert((a + b)[i] == a[i]);
            if a[i].0 == k {
                lemma_map_of_has(a, i);
            }
        } else {
            assert((a + b)[i] == b[i - a.len()]);
        }
    }
    lemma_map_of_absent(a + b, k);
}

#[verifier::rlimit(100)]
proof fn lemma_printed_facts(l: Seq<EntryView>, m: Map<Seq<char>, ValueView>)
    requires
        distinct_layout_keys(l),
    ensures
        forall|j: int| 0 <= j < printed_pairs(l, m).len() ==> {
            let q = #[trigger] printed_pairs(l, m)[j];
            in_layout(l, q.0) && m.contains_key(q.0) && q.1 == m[q.0]
        },
        forall|idx: int| 0 <= idx < l.len() && (#[trigger] l[idx]) is Key && m.contains_key(l[idx]->Key_0)
            ==> exists|j: int| 0 <= j < printed_pairs(l, m).len() && #[trigger] printed_pairs(l, m)[j] == (l[idx]->Key_0, m[l[idx]->Key_0]),
        unique_keys(printed_pairs(l, m)),
    decreases l.len(),
{
    if l.len() > 0 {
        let lp = l.drop_last();
        assert(distinct_layout_keys(lp)) by {
            assert forall|i: int, j: int| 0 <= i < j < lp.len() && (#[trigger] lp[i]) is Key && (#[trigger] lp[j]) is Key implies lp[i]->Key_0 != lp[j]->Key_0 by {
                assert(lp[i] == l[i] && lp[j] == l[j]);
            }
        }
        lemma_printed_facts(lp, m);
        let pp = printed_pairs(lp, m);
        let ep = entry_pair(l.last(), m);
        let pl = printed_pairs(l, m);
        assert(pl == pp + ep);
        assert forall|k: Seq<char>| in_layout(lp, k) implies in_layout(l, k) by {
            let i = choose|i: int| 0 <= i < lp.len() && lp[i] == EntryView::Key(k);
            assert(l[i] == lp[i]);
        }
        assert forall|j: int| 0 <= j < pl.len() implies {
            let q = #[trigger] pl[j];
            in_layout(l, q.0) && m.contains_key(q.0) && q.1 == m[q.0]
        } by {
            if j < pp.len() {
                assert(pl[j] == pp[j]);
            } else {
                assert(pl[j] == ep[j - pp.len()]);
                assert(l[l.len() - 1] == l.last());
            }
        }
        assert forall|idx: int| 0 <= idx < l.len() && (#[trigger] l[idx]) is Key && m.contains_key(l[idx]->Key_0)
            implies exists|j: int| 0 <= j < pl.len() && #[trigger] pl[j] == (l[idx]->Key_0, m[l[idx]->Key_0]) by {
            if idx < lp.len() {
                assert(lp[idx] == l[idx]);
                let j = choose|j: int| 0 <= j < pp.len() && #[trigger] pp[j] == (lp[idx]->Key_0, m[lp[idx]->Key_0]);
                assert(pl[j] == pp[j]);
            } else {
                assert(l[idx] == l.last());
                assert(pl[pp.len() as int] == ep[0]);
            }
        }
        assert(unique_keys(pl)) by {
            assert forall|i: int, j: int| 0 <= i < j < pl.len() implies pl[i].0 != pl[j].0 by {
                if j < pp.len() {
                    assert(pl[i] == pp[i] && pl[j] == pp[j]);
                } else {
                    assert(pl[i] == pp[i]);
                    assert(pl[j] == ep[0]);
                    let k = l.last()->Key_0;
                    assert(in_layout(lp, pp[i].0));
                    let x = choose|x: int| 0 <= x < lp.len() && lp[x] == EntryView::Key(pp[i].0);
                    assert(l[x] == lp[x]);
                    assert(l[l.len() - 1] == l.last());
                }
            }
        }
    }
}

#[verifier::rlimit(100)]
proof fn lemma_extra_facts(pairs: Seq<(Seq<char>, ValueView)>, l: Seq<EntryView>)
    requires
        unique_keys(pairs),
    ensures
        forall|j: int| 0 <= j < extra_pairs(pairs, l).len() ==> {
            let q = #[trigger] extra_pairs(pairs, l)[j];
            !in_layout(l, q.0) && exists|i: int| 0 <= i < pairs.len() && pairs[i] == q
        },
        forall|i: int| 0 <= i < pairs.len() && !in_layout(l, (#[trigger] pairs[i]).0) ==> exists|j: int|
            0 <= j < extra_pairs(pairs, l).len() && extra_pairs(pairs, l)[j] == pairs[i],
        unique_keys(extra_pairs(pairs, l)),
    decreases pairs.len(),
{
    if pairs.len() > 0 {
        let pp = pairs.drop_last();
        assert(unique_keys(pp)) by {
            assert forall|i: int, j: int| 0 <= i < j < pp.len() implies pp[i].0 != pp[j].0 by {
                assert(pp[i] == pairs[i] && pp[j] == pairs[j]);
            }
        }
        lemma_extra_facts(pp, l);
        let xp = extra_pairs(pp, l);
        let tail = if in_layout(l, pairs.last().0) {
            Seq::<(Seq<char>, ValueView)>::empty()
        } else {
            seq![pairs.last()]
        };
        let xs = extra_pairs(pairs, l);
        assert(xs == xp + tail);
        assert forall|j: int| 0 <= j < xs.len() implies {
            let q = #[trigger] xs[j];
            !in_layout(l, q.0) && exists|i: int| 0 <= i < pairs.len() && pairs[i] == q
        } by {
            if j < xp.len() {
                assert(xs[j] == xp[j]);
                let i = choose|i: int| 0 <= i < pp.len() && pp[i] == xp[j];
                assert(pairs[i] == pp[i]);
            } else {
                assert(xs[j] == pairs[pairs.len() - 1]);
            }
        }
        assert forall|i: int| 0 <= i < pairs.len() && !in_layout(l, (#[trigger] pairs[i]).0) implies exists|j: int|
            0 <= j < xs.len() && xs[j] == pairs[i] by {
            if i < pp.len() {
                assert(pp[i] == pairs[i]);
                assert(!in_layout(l, pp[i].0));
                let j = choose|j: int| 0 <= j < xp.len() && xp[j] == pp[i];
                assert(xs[j] == xp[j]);
            } else {
                assert(xs[xp.len() as int] == pairs[i]);
            }
        }
        assert(unique_keys(xs)) by {
            assert forall|a: int, b: int| 0 <= a < b < xs.len() implies xs[a].0 != xs[b].0 by {
                if b < xp.len() {
                    assert(xs[a] == xp[a] && xs[b] == xp[b]);
                } else {
                    assert(xs[a] == xp[a]);
                    let i = choose|i: int| 0 <= i < pp.len() && pp[i] == xp[a];
                    assert(pairs[i] == pp[i]);
                    assert(xs[b] == pairs[pairs.len() - 1]);
                }
            }
        }
    }
}


pub open spec fn layout_ok(l: Seq<EntryView>, m: Map<Seq<char>, ValueView>) -> bool {
    forall|i: int| 0 <= i < l.len() ==> entry_ok(#[trigger] l[i], m)
}

/// The scanner reads the lines of a layout entry by entry, with no error.
#[verifier::rlimit(100)]
proof fn lemma_scan_layout(
    pre: Seq<Seq<char>>,
    l: Seq<EntryView>,
    m: Map<Seq<char>, ValueView>,
    post: Seq<Seq<char>>,
    st: ScanState,
)
    requires
        layout_ok(l, m),
        distinct_layout_keys(l),
        forall|k: Seq<char>| in_layout(l, k) ==> !(#[trigger] map_of(st.pairs).contains_key(k)),
        opens_plain(post),
    ensures
        ({
            let b = layout_lines(l, m);
            let ls = pre + b + post;
            scan(ls, pre.len() as int, st) == scan(
                ls,
                (pre.len() + b.len()) as int,
                after(st, read_layout_all(l, m), printed_pairs(l, m)),
            )
        }),
    decreases l.len(),
{
    let b = layout_lines(l, m);
    let ls = pre + b + post;
    if l.len() == 0 {
        assert(b =~= Seq::<Seq<char>>::empty());
        assert(after(st, read_layout_all(l, m), printed_pairs(l, m)) =~= st);
    } else {
        let lp = l.drop_last();
        let e = l.last();
        let bp = layout_lines(lp, m);
        let be = entry_lines(e, m);
        assert(b == bp + be);
        assert(ls =~= pre + bp + (be + post));
        assert(layout_ok(lp, m)) by {
            assert forall|i: int| 0 <= i < lp.len() implies entry_ok(#[trigger] lp[i], m) by {
                assert(lp[i] == l[i]);
            }
        }
        assert(distinct_layout_keys(lp)) by {
            assert forall|i: int, j: int| 0 <= i < j < lp.len() && (#[trigger] lp[i]) is Key && (#[trigger] lp[j]) is Key implies lp[i]->Key_0 != lp[j]->Key_0 by {
                assert(lp[i] == l[i] && lp[j] == l[j]);
            }
        }
        assert forall|k: Seq<char>| in_layout(lp, k) implies !(#[trigger] map_of(st.pairs).contains_key(k)) by {
            let i = choose|i: int| 0 <= i < lp.len() && lp[i] == EntryView::Key(k);
            assert(l[i] == lp[i]);
            assert(in_layout(l, k));
        }
        assert(l[l.len() - 1] == e);
        lemma_entry_start(e, m, post);
        lemma_scan_layout(pre, lp, m, be + post, st);
        let s1 = after(st, read_layout_all(lp, m), printed_pairs(lp, m));
        assert(l[l.len() - 1] == e);
        assert(entry_ok(e, m));
        assert forall|k: Seq<char>| e == EntryView::Key(k) && m.contains_key(k) implies !map_of(s1.pairs).contains_key(k) by {
            assert(in_layout(l, k));
            lemma_printed_facts(lp, m);
            let pp = printed_pairs(lp, m);
            assert forall|j: int| 0 <= j < pp.len() implies (#[trigger] pp[j]).0 != k by {
                assert(in_layout(lp, pp[j].0));
                let x = choose|x: int| 0 <= x < lp.len() && lp[x] == EntryView::Key(pp[j].0);
                assert(l[x] == lp[x]);
            }
            lemma_absent_concat(st.pairs, pp, k);
        }
        lemma_scan_entry(pre + bp, e, m, post, s1);
        assert(pre + bp + be + post =~= ls);
        assert(after(s1, read_layout(e, m), entry_pair(e, m)) =~= after(
            st,
            read_layout_all(l, m),
            printed_pairs(l, m),
        ));
    }
}

/// The scanner reads the pairs written after the layout, with no error.
#[verifier::rlimit(100)]
proof fn lemma_scan_extras(
    pre: Seq<Seq<char>>,
    pairs: Seq<(Seq<char>, ValueView)>,
    l: Seq<EntryView>,
    post: Seq<Seq<char>>,
    st: ScanState,
)
    requires
        unique_keys(pairs),
        forall|i: int| 0 <= i < pairs.len() ==> key_ok((#[trigger] pairs[i]).0) && value_ok(pairs[i].1),
        forall|i: int|
            0 <= i < pairs.len() && !in_layout(l, (#[trigger] pairs[i]).0) ==> !map_of(
                st.pairs,
            ).contains_key(pairs[i].0),
        opens_plain(post),
    ensures
        ({
            let b = extra_lines(pairs, l);
            let ls = pre + b + post;
            scan(ls, pre.len() as int, st) == scan(
                ls,
                (pre.len() + b.len()) as int,
                after(st, read_extra(pairs, l), extra_pairs(pairs, l)),
            )
        }),
    decreases pairs.len(),
{
    let b = extra_lines(pairs, l);
    let ls = pre + b + post;
    if pairs.len() == 0 {
        assert(b =~= Seq::<Seq<char>>::empty());
        assert(after(st, read_extra(pairs, l), extra_pairs(pairs, l)) =~= st);
    } else {
        let pp = pairs.drop_last();
        let (k, v) = pairs.last();
        let bp = extra_lines(pp, l);
        let be = if in_layout(l, k) {
            Seq::<Seq<char>>::empty()
        } else {
            pair_lines(k, v)
        };
        assert(b == bp + be);
        assert(ls =~= pre + bp + (be + post));
        assert(unique_keys(pp)) by {
            assert forall|i: int, j: int| 0 <= i < j < pp.len() implies pp[i].0 != pp[j].0 by {
                assert(pp[i] == pairs[i] && pp[j] == pairs[j]);
            }
        }
        assert forall|i: int| 0 <= i < pp.len() implies key_ok((#[trigger] pp[i]).0) && value_ok(pp[i].1) by {
            assert(pp[i] == pairs[i]);
        }
        assert forall|i: int|
            0 <= i < pp.len() && !in_layout(l, (#[trigger] pp[i]).0) implies !map_of(st.pairs).contains_key(pp[i].0) by {
            assert(pp[i] == pairs[i]);
        }
        if in_layout(l, k) {
            assert(be + post =~= post);
        } else {
            assert(key_ok(pairs[pairs.len() - 1].0));
            lemma_pair_start(k, v, post);
        }
        lemma_scan_extras(pre, pp, l, be + post, st);
        let s1 = after(st, read_extra(pp, l), extra_pairs(pp, l));
        assert(pairs[pairs.len() - 1] == (k, v));
        if in_layout(l, k) {
            assert(be =~= Seq::<Seq<char>>::empty());
            assert(pre + bp + post =~= ls);
            assert(s1 =~= after(st, read_extra(pairs, l), extra_pairs(pairs, l)));
        } else {
            let m1 = single(k, v);
            assert(m1.contains_key(k) && m1[k] == v);
            assert(entry_lines(EntryView::Key(k), m1) == be);
            lemma_extra_facts(pp, l);
            let xp = extra_pairs(pp, l);
            assert forall|j: int| 0 <= j < xp.len() implies (#[trigger] xp[j]).0 != k by {
                let i = choose|i: int| 0 <= i < pp.len() && pp[i] == xp[j];
                assert(pairs[i] == pp[i]);
            }
            lemma_absent_concat(st.pairs, xp, k);
            lemma_scan_pair(pre + bp, k, m1, post, s1);
            assert(pre + bp + be + post =~= ls);
            assert(entry_pair(EntryView::Key(k), m1) =~= seq![(k, v)]);
            assert(after(s1, read_layout(EntryView::Key(k), m1), entry_pair(EntryView::Key(k), m1))
                =~= after(st, read_extra(pairs, l), extra_pairs(pairs, l)));
        }
    }
}


/// A layout and pairs that the formatter writes in a form the scanner reads
/// back: keys and values that read back as written, unique keys, a key at
/// most once in the layout, and comments that read back as comments.
pub open spec fn file_ok(l: Seq<EntryView>, pairs: Seq<(Seq<char>, ValueView)>) -> bool {
    &&& unique_keys(pairs)
    &&& forall|i: int| 0 <= i < pairs.len() ==> key_ok((#[trigger] pairs[i]).0) && value_ok(pairs[i].1)
    &&& forall|i: int| 0 <= i < l.len() && (#[trigger] l[i]) is Comment ==> comment_ok(l[i]->Comment_0)
    &&& distinct_layout_keys(l)
}

#[verifier::rlimit(100)]
proof fn lemma_entry_lines_plain(e: EntryView, m: Map<Seq<char>, ValueView>)
    requires
        entry_ok(e, m),
    ensures
        no_newlines(entry_lines(e, m)),
{
    let b = entry_lines(e, m);
    match e {
        EntryView::Empty => {
            assert(b[0] == Seq::<char>::empty());
        },
        EntryView::Comment(c) => {
            if c.contains('\n') {
                lemma_join_split(c);
                let body = split_lines(c);
                let h = hash_pair();
                assert(!h.contains('\n')) by {
                    if h.contains('\n') {
                        let j = choose|j: int| 0 <= j < h.len() && h[j] == '\n';
                    }
                }
                assert forall|j: int| 0 <= j < b.len() implies !(#[trigger] b[j]).contains('\n') by {
                    if j == 0 {
                        assert(b[j] == h);
                    } else if j <= body.len() {
                        assert(b[j] == body[j - 1]);
                    } else {
                        assert(b[j] == h);
                    }
                }
            } else {
                let q = seq!['#'];
                assert(!q.contains('\n')) by {
                    if q.contains('\n') {
                        let j = choose|j: int| 0 <= j < q.len() && q[j] == '\n';
                    }
                }
                lemma_no_newline_concat(q, c);
                assert(b[0] == q + c);
            }
        },
        EntryView::Key(k) => {
            if m.contains_key(k) {
                lemma_pair_lines_plain(k, m[k]);
            }
        },
    }
}

proof fn lemma_layout_lines_plain(l: Seq<EntryView>, m: Map<Seq<char>, ValueView>)
    requires
        layout_ok(l, m),
    ensures
        no_newlines(layout_lines(l, m)),
    decreases l.len(),
{
    if l.len() > 0 {
        let lp = l.drop_last();
        assert(layout_ok(lp, m)) by {
            assert forall|i: int| 0 <= i < lp.len() implies entry_ok(#[trigger] lp[i], m) by {
                assert(lp[i] == l[i]);
            }
        }
        lemma_layout_lines_plain(lp, m);
        assert(l[l.len() - 1] == l.last());
        lemma_entry_lines_plain(l.last(), m);
        lemma_no_newlines_append(layout_lines(lp, m), entry_lines(l.last(), m));
    }
}

proof fn lemma_extra_lines_plain(pairs: Seq<(Seq<char>, ValueView)>, l: Seq<EntryView>)
    requires
        forall|i: int| 0 <= i < pairs.len() ==> key_ok((#[trigger] pairs[i]).0) && value_ok(pairs[i].1),
    ensures
        no_newlines(extra_lines(pairs, l)),
    decreases pairs.len(),
{
    if pairs.len() > 0 {
        let pp = pairs.drop_last();
        assert forall|i: int| 0 <= i < pp.len() implies key_ok((#[trigger] pp[i]).0) && value_ok(pp[i].1) by {
            assert(pp[i] == pairs[i]);
        }
        lemma_extra_lines_plain(pp, l);
        assert(pairs[pairs.len() - 1] == pairs.last());
        lemma_pair_lines_plain(pairs.last().0, pairs.last().1);
        let tail = if in_layout(l, pairs.last().0) {
            Seq::<Seq<char>>::empty()
        } else {
            pair_lines(pairs.last().0, pairs.last().1)
        };
        lemma_no_newlines_append(extra_lines(pp, l), tail);
    }
}

proof fn lemma_header(version: nat)
    requires
        version <= usize::MAX,
    ensures
        !header_line(version).contains('\n'),
        header_version(trim(header_line(version))) == Some(version),
{
    let h = header_line(version);
    let d = decimal(version);
    lemma_decimal(version);
    assert(h.take(7) =~= format_prefix());
    assert(h.skip(7) =~= d);
    assert(is_digit(d[d.len() - 1]));
    assert(h.last() == d.last());
    lemma_trim_id(h);
    assert(d[0] != '+') by {
        assert(is_digit(d[0]));
    }
    assert(!h.contains('\n')) by {
        if h.contains('\n') {
            let j = choose|j: int| 0 <= j < h.len() && h[j] == '\n';
            if j >= 7 {
                assert(h[j] == d[j - 7]);
                assert(is_digit(d[j - 7]));
            }
        }
    }
}

/// Round trip: the text that the formatter writes for a well-formed layout
/// and pairs reads back with no error, declares the same version, and gives
/// the same values.
#[verifier::rlimit(100)]
pub proof fn law_round_trip(l: Seq<EntryView>, pairs: Seq<(Seq<char>, ValueView)>, version: nat)
    requires
        file_ok(l, pairs),
        version <= usize::MAX,
    ensures
        ({
            let ls = split_lines(file_text(l, pairs, version));
            &&& header_version(trim(ls[0])) == Some(version)
            &&& scan_lines(ls).errors.len() == 0
            &&& map_of(scan_lines(ls).pairs) == map_of(pairs)
        }),
{
    let m = map_of(pairs);
    assert(layout_ok(l, m)) by {
        assert forall|i: int| 0 <= i < l.len() implies entry_ok(#[trigger] l[i], m) by {
            match l[i] {
                EntryView::Key(k) => {
                    if m.contains_key(k) {
                        lemma_map_of_contains(pairs, k);
                        let x = choose|x: int| 0 <= x < pairs.len() && (#[trigger] pairs[x]).0 == k;
                        lemma_map_of_index(pairs, x);
                    }
                },
                _ => {},
            }
        }
    }
    let h = seq![header_line(version)];
    let lb = layout_lines(l, m);
    let xb = extra_lines(pairs, l);
    let all = file_lines(l, pairs, version);
    assert(all == h + lb + xb);
    lemma_file_text_lines(l, pairs, version);
    lemma_header(version);
    lemma_layout_lines_plain(l, m);
    lemma_extra_lines_plain(pairs, l);
    assert(no_newlines(h)) by {
        assert forall|j: int| 0 <= j < h.len() implies !(#[trigger] h[j]).contains('\n') by {
            assert(h[j] == header_line(version));
        }
    }
    lemma_no_newlines_append(h, lb);
    lemma_no_newlines_append(h + lb, xb);
    lemma_split_join(all);
    let ls = split_lines(file_text(l, pairs, version));
    assert(ls == all);
    assert(ls[0] == header_line(version));
    // scan the layout, then the pairs after it
    let st0 = crate::parser::empty_state();
    lemma_printed_facts(l, m);
    assert forall|k: Seq<char>| in_layout(l, k) implies !(#[trigger] map_of(st0.pairs).contains_key(k)) by {
        lemma_map_of_absent(st0.pairs, k);
    }
    lemma_extra_start(pairs, l, Seq::empty());
    assert(xb + Seq::<Seq<char>>::empty() =~= xb);
    lemma_scan_layout(h, l, m, xb, st0);
    let s1 = after(st0, read_layout_all(l, m), printed_pairs(l, m));
    let pp = printed_pairs(l, m);
    assert(s1.pairs =~= pp);
    assert forall|i: int|
        0 <= i < pairs.len() && !in_layout(l, (#[trigger] pairs[i]).0) implies !map_of(s1.pairs).contains_key(pairs[i].0) by {
        assert forall|j: int| 0 <= j < pp.len() implies (#[trigger] pp[j]).0 != pairs[i].0 by {
            assert(in_layout(l, pp[j].0));
        }
        lemma_map_of_absent(pp, pairs[i].0);
    }
    lemma_scan_extras(h + lb, pairs, l, Seq::empty(), s1);
    assert(h + lb + xb + Seq::<Seq<char>>::empty() =~= ls);
    assert(h + lb + xb =~= ls);
    let s2 = after(s1, read_extra(pairs, l), extra_pairs(pairs, l));
    assert(scan_lines(ls) == scan(ls, ls.len() as int, s2));
    assert(scan_lines(ls) == s2);
    assert(s2.errors =~= Seq::<(nat, Seq<char>)>::empty());
    // the pairs read back make up the same map
    let xs = extra_pairs(pairs, l);
    let q = pp + xs;
    assert(s2.pairs =~= q);
    lemma_extra_facts(pairs, l);
    assert(unique_keys(q)) by {
        assert forall|a: int, b: int| 0 <= a < b < q.len() implies q[a].0 != q[b].0 by {
            if b < pp.len() {
                assert(q[a] == pp[a] && q[b] == pp[b]);
            } else if a >= pp.len() {
                assert(q[a] == xs[a - pp.len()] && q[b] == xs[b - pp.len()]);
            } else {
                assert(q[a] == pp[a] && q[b] == xs[b - pp.len()]);
                assert(in_layout(l, pp[a].0));
            }
        }
    }
    assert forall|k: Seq<char>| #[trigger] map_of(q).contains_key(k) == m.contains_key(k)
        && (m.contains_key(k) ==> map_of(q)[k] == m[k]) by {
        lemma_map_of_contains(q, k);
        lemma_map_of_contains(pairs, k);
        if m.contains_key(k) {
            let x = choose|x: int| 0 <= x < pairs.len() && (#[trigger] pairs[x]).0 == k;
            lemma_map_of_index(pairs, x);
            if in_layout(l, k) {
                let idx = choose|idx: int| 0 <= idx < l.len() && l[idx] == EntryView::Key(k);
                assert(l[idx] is Key && l[idx]->Key_0 == k);
                let j = choose|j: int| 0 <= j < pp.len() && #[trigger] pp[j] == (l[idx]->Key_0, m[l[idx]->Key_0]);
                assert(q[j] == pp[j]);
                lemma_map_of_index(q, j);
            } else {
                let j = choose|j: int| 0 <= j < xs.len() && xs[j] == pairs[x];
                assert(q[pp.len() + j] == xs[j]);
                lemma_map_of_index(q, pp.len() + j);
            }
        } else {
            assert forall|j: int| 0 <= j < q.len() implies (#[trigger] q[j]).0 != k by {
                if j < pp.len() {
                    assert(q[j] == pp[j]);
                } else {
                    assert(q[j] == xs[j - pp.len()]);
                    let i = choose|i: int| 0 <= i < pairs.len() && pairs[i] == xs[j - pp.len()];
                    lemma_map_of_has(pairs, i);
                }
            }
        }
    }
    assert(map_of(q) =~= m);
}


/// Every key of the layout has a value among the pairs.
pub open spec fn layout_keys_in(l: Seq<EntryView>, pairs: Seq<(Seq<char>, ValueView)>) -> bool {
    forall|i: int| 0 <= i < l.len() && (#[trigger] l[i]) is Key ==> map_of(pairs).contains_key(l[i]->Key_0)
}

/// What the scanner gathers is well formed, comments aside.
pub open spec fn scan_ok(st: ScanState) -> bool {
    &&& unique_keys(st.pairs)
    &&& forall|i: int| 0 <= i < st.pairs.len() ==> key_readable((#[trigger] st.pairs[i]).0) && value_ok(st.pairs[i].1)
    &&& distinct_layout_keys(st.layout)
    &&& layout_keys_in(st.layout, st.pairs)
}

proof fn lemma_trim_facts(s: Seq<char>)
    ensures
        trim(s).len() > 0 ==> !is_ws(trim(s)[0]),
        !s.contains('\n') ==> !trim(s).contains('\n'),
    decreases s.len(),
{
    lemma_trim_start_facts(s);
    let a = trim_start(s);
    if a.len() > 0 {
        lemma_trim_end_first(a);
    }
    lemma_trim_end_sub(a);
}

proof fn lemma_trim_start_facts(s: Seq<char>)
    ensures
        trim_start(s).len() > 0 ==> !is_ws(trim_start(s)[0]),
        !s.contains('\n') ==> !trim_start(s).contains('\n'),
    decreases s.len(),
{
    if s.len() > 0 && is_ws(s[0]) {
        lemma_trim_start_facts(s.drop_first());
        if !s.contains('\n') {
            assert(!s.drop_first().contains('\n')) by {
                if s.drop_first().contains('\n') {
                    let j = choose|j: int| 0 <= j < s.drop_first().len() && s.drop_first()[j] == '\n';
                    assert(s[j + 1] == '\n');
                }
            }
        }
    }
}

proof fn lemma_trim_end_sub(s: Seq<char>)
    ensures
        !s.contains('\n') ==> !trim_end(s).contains('\n'),
    decreases s.len(),
{
    if s.len() > 0 && is_ws(s.last()) {
        lemma_trim_end_sub(s.drop_last());
        if !s.contains('\n') {
            assert(!s.drop_last().contains('\n')) by {
                if s.drop_last().contains('\n') {
                    let j = choose|j: int| 0 <= j < s.drop_last().len() && s.drop_last()[j] == '\n';
                    assert(s[j] == '\n');
                }
            }
        }
    }
}

proof fn lemma_min_colon(t: Seq<char>, i: int) -> (c: int)
    requires
        0 <= i <= t.len(),
        exists|k: int| i <= k < t.len() && t[k] == ':',
        forall|m: int| 0 <= m < i ==> t[m] != ':',
    ensures
        0 <= c < t.len(),
        t[c] == ':',
        forall|m: int| 0 <= m < c ==> t[m] != ':',
    decreases t.len() - i,
{
    if t[i] == ':' {
        i
    } else {
        lemma_min_colon(t, i + 1)
    }
}

proof fn lemma_first_colon_props(t: Seq<char>)
    ensures
        first_colon(t) matches Some(c) ==> 0 <= c < t.len() && t[c] == ':' && forall|m: int|
            0 <= m < c ==> t[m] != ':',
{
    if exists|k: int| 0 <= k < t.len() && t[k] == ':' {
        let c = lemma_min_colon(t, 0);
    }
}

/// A pair that the scanner reads has a key and a value that read back as
/// written.
#[verifier::rlimit(100)]
proof fn lemma_pair_read_ok(ls: Seq<Seq<char>>, i: int, pairs: Seq<(Seq<char>, ValueView)>)
    requires
        0 <= i < ls.len(),
        no_newlines(ls),
        line_outcome(ls, i, pairs) is Pair,
    ensures
        key_readable(line_outcome(ls, i, pairs)->Pair_0),
        value_ok(line_outcome(ls, i, pairs)->Pair_1),
        !map_of(pairs).contains_key(line_outcome(ls, i, pairs)->Pair_0),
{
    let t = trim(ls[i]);
    lemma_trim_facts(ls[i]);
    lemma_first_colon_props(t);
    assert(!ls[i].contains('\n'));
    let c = first_colon(t)->0;
    let k = t.take(c);
    assert(k.len() > 0 && k[0] == t[0]);
    assert(!k.contains(':')) by {
        if k.contains(':') {
            let j = choose|j: int| 0 <= j < k.len() && k[j] == ':';
            assert(t[j] == ':');
        }
    }
    assert(!k.contains('\n')) by {
        if k.contains('\n') {
            let j = choose|j: int| 0 <= j < k.len() && k[j] == '\n';
            assert(t[j] == '\n');
        }
    }
    let v = trim_start(t.skip(c + 1));
    if v.len() > 0 && is_digit(v[0]) && is_int_literal(v) {
        assert(digits_value(v) <= i64::MAX);
    }
}

/// The scanner keeps what it gathers well formed.
#[verifier::rlimit(100)]
proof fn lemma_scan_ok(ls: Seq<Seq<char>>, j: int, st: ScanState)
    requires
        no_newlines(ls),
        scan_ok(st),
    ensures
        scan_ok(scan(ls, j, st)),
    decreases ls.len() - j,
{
    if 0 <= j < ls.len() {
        let (n, k) = step(ls, j, st);
        match line_outcome(ls, j, st.pairs) {
            LineOutcome::Pair(key, v, extra) => {
                lemma_pair_read_ok(ls, j, st.pairs);
                let grown = st.pairs.push((key, v));
                assert(n.pairs == grown);
                assert(n.layout == st.layout.push(EntryView::Key(key)));
                assert(unique_keys(grown)) by {
                    assert forall|a: int, b: int| 0 <= a < b < grown.len() implies grown[a].0 != grown[b].0 by {
                        if b == grown.len() - 1 {
                            assert(grown[a] == st.pairs[a]);
                            lemma_map_of_has(st.pairs, a);
                        } else {
                            assert(grown[a] == st.pairs[a] && grown[b] == st.pairs[b]);
                        }
                    }
                }
                assert(forall|i: int| 0 <= i < grown.len() ==> key_readable((#[trigger] grown[i]).0) && value_ok(grown[i].1)) by {
                    assert forall|i: int| 0 <= i < grown.len() implies key_readable((#[trigger] grown[i]).0) && value_ok(grown[i].1) by {
                        if i < st.pairs.len() {
                            assert(grown[i] == st.pairs[i]);
                        }
                    }
                }
                assert(map_of(grown) == map_of(st.pairs).insert(key, v)) by {
                    assert(grown.drop_last() =~= st.pairs);
                }
                assert(distinct_layout_keys(n.layout)) by {
                    assert forall|a: int, b: int| 0 <= a < b < n.layout.len() && (#[trigger] n.layout[a]) is Key && (#[trigger] n.layout[b]) is Key implies n.layout[a]->Key_0 != n.layout[b]->Key_0 by {
                        assert(n.layout[a] == st.layout[a]);
                        if b == n.layout.len() - 1 {
                            assert(map_of(st.pairs).contains_key(st.layout[a]->Key_0));
                        } else {
                            assert(n.layout[b] == st.layout[b]);
                        }
                    }
                }
                assert(layout_keys_in(n.layout, n.pairs)) by {
                    assert forall|i: int| 0 <= i < n.layout.len() && (#[trigger] n.layout[i]) is Key implies map_of(n.pairs).contains_key(n.layout[i]->Key_0) by {
                        if i < st.layout.len() {
                            assert(n.layout[i] == st.layout[i]);
                        }
                    }
                }
            },
            LineOutcome::Entry(e, extra) => {
                assert(n.layout == st.layout.push(e));
                assert(n.pairs == st.pairs);
                assert(!(e is Key)) by {
                    let t = trim(ls[j]);
                    if t == hash_pair() {
                        match comment_end(ls, j + 1) {
                            Some(_) => {},
                            None => {},
                        }
                    }
                }
                assert(distinct_layout_keys(n.layout)) by {
                    assert forall|a: int, b: int| 0 <= a < b < n.layout.len() && (#[trigger] n.layout[a]) is Key && (#[trigger] n.layout[b]) is Key implies n.layout[a]->Key_0 != n.layout[b]->Key_0 by {
                        assert(n.layout[a] == st.layout[a]);
                        assert(n.layout[b] == st.layout[b]);
                    }
                }
                assert(layout_keys_in(n.layout, n.pairs)) by {
                    assert forall|i: int| 0 <= i < n.layout.len() && (#[trigger] n.layout[i]) is Key implies map_of(n.pairs).contains_key(n.layout[i]->Key_0) by {
                        assert(n.layout[i] == st.layout[i]);
                    }
                }
            },
            LineOutcome::Failed(msg) => {
                assert(n.layout == st.layout.push(EntryView::Comment(ls[j])));
                assert(n.pairs == st.pairs);
                assert(distinct_layout_keys(n.layout)) by {
                    assert forall|a: int, b: int| 0 <= a < b < n.layout.len() && (#[trigger] n.layout[a]) is Key && (#[trigger] n.layout[b]) is Key implies n.layout[a]->Key_0 != n.layout[b]->Key_0 by {
                        assert(n.layout[a] == st.layout[a]);
                        assert(n.layout[b] == st.layout[b]);
                    }
                }
                assert(layout_keys_in(n.layout, n.pairs)) by {
                    assert forall|i: int| 0 <= i < n.layout.len() && (#[trigger] n.layout[i]) is Key implies map_of(n.pairs).contains_key(n.layout[i]->Key_0) by {
                        assert(n.layout[i] == st.layout[i]);
                    }
                }
            },
        }
        if k > j && k <= ls.len() {
            lemma_scan_ok(ls, k, n);
        }
    }
}


/// Round trip of a parsed text: read a text, write its layout and values back
/// under any version, and read the result again. The second read gives no
/// error, declares that version, and gives the same values as the first,
/// provided each comment of the first read's layout is one that reads back as
/// a comment (a comment such as `#`, written as the line `##`, is not), and no
/// key read starts with `"` (such a key line, written right after a string of
/// several lines, would be read as part of that string).
#[verifier::rlimit(100)]
pub proof fn law_parse_format_parse(text: Seq<char>, version: nat)
    requires
        version <= usize::MAX,
        forall|i: int|
            0 <= i < parsed_state(text).pairs.len() ==> (#[trigger] parsed_state(text).pairs[i]).0[0]
                != '"',
        forall|i: int|
            0 <= i < parsed_state(text).layout.len() && (#[trigger] parsed_state(text).layout[i]) is Comment
                ==> comment_ok(parsed_state(text).layout[i]->Comment_0),
    ensures
        ({
            let st = parsed_state(text);
            let again = split_lines(file_text(st.layout, st.pairs, version));
            &&& header_version(trim(again[0])) == Some(version)
            &&& scan_lines(again).errors.len() == 0
            &&& map_of(scan_lines(again).pairs) == map_of(st.pairs)
        }),
{
    let ls = split_lines(text);
    lemma_join_split(text);
    assert(no_newlines(ls));
    let st0 = crate::parser::empty_state();
    assert(scan_ok(st0)) by {
        assert(map_of(st0.pairs) == Map::<Seq<char>, ValueView>::empty());
    }
    lemma_scan_ok(ls, 1, st0);
    let st = parsed_state(text);
    assert(file_ok(st.layout, st.pairs));
    law_round_trip(st.layout, st.pairs, version);
}

/// Round trip of a file: the text that `to_str` writes for a well-formed file
/// reads back with no error, under the file's version, to the file's values.
pub proof fn law_format_then_parse(f: File)
    requires
        file_ok(layout_view(f.layout@), f.values.entries()),
        f.version >= 1,
    ensures
        declared_version(formatted(f)) == Some(f.version as nat),
        parse_errors(formatted(f)).len() == 0,
        map_of(parsed_state(formatted(f)).pairs) == f.values@,
{
    law_round_trip(layout_view(f.layout@), f.values.entries(), f.version as nat);
}

} // verus!
