use vstd::prelude::*;

use crate::data::{push_decimal, render_value, EntryView, LayoutEntry, ValueView};
use crate::errors::FormatEntryError;
use crate::parser::{format_prefix, layout_view};
use crate::text::{chars_of, decimal, push_all, string_from_chars};
use crate::values::{map_of, ValueMap};

verus! {

/// `key: value` on a line of its own.
pub open spec fn pair_text(k: Seq<char>, v: ValueView) -> Seq<char> {
    k + seq![':', ' '] + render_value(v) + seq!['\n']
}

/// The text that one layout entry gives; a key without a value gives none.
pub open spec fn entry_text(e: EntryView, values: Map<Seq<char>, ValueView>) -> Seq<char> {
    match e {
        EntryView::Empty => seq!['\n'],
        EntryView::Comment(c) => if c.contains('\n') {
            seq!['#', '#', '\n'] + c + seq!['\n', '#', '#', '\n']
        } else {
            seq!['#'] + c + seq!['\n']
        },
        EntryView::Key(k) => if values.contains_key(k) {
            pair_text(k, values[k])
        } else {
            Seq::empty()
        },
    }
}

pub open spec fn layout_text(l: Seq<EntryView>, values: Map<Seq<char>, ValueView>) -> Seq<char>
    decreases l.len(),
{
    if l.len() == 0 {
        Seq::empty()
    } else {
        layout_text(l.drop_last(), values) + entry_text(l.last(), values)
    }
}

/// The keys of the layout that have no value, in layout order.
pub open spec fn missing_keys(l: Seq<EntryView>, values: Map<Seq<char>, ValueView>) -> Seq<
    Seq<char>,
>
    decreases l.len(),
{
    if l.len() == 0 {
        Seq::empty()
    } else {
        let rest = missing_keys(l.drop_last(), values);
        match l.last() {
            EntryView::Key(k) => if values.contains_key(k) {
                rest
            } else {
                rest.push(k)
            },
            _ => rest,
        }
    }
}

pub open spec fn in_layout(l: Seq<EntryView>, k: Seq<char>) -> bool {
    exists|i: int| 0 <= i < l.len() && l[i] == EntryView::Key(k)
}

/// The pairs whose key the layout does not hold, each on a line.
pub open spec fn extra_text(pairs: Seq<(Seq<char>, ValueView)>, l: Seq<EntryView>) -> Seq<char>
    decreases pairs.len(),
{
    if pairs.len() == 0 {
        Seq::empty()
    } else {
        let rest = extra_text(pairs.drop_last(), l);
        if in_layout(l, pairs.last().0) {
            rest
        } else {
            rest + pair_text(pairs.last().0, pairs.last().1)
        }
    }
}

pub open spec fn header_text(version: nat) -> Seq<char> {
    format_prefix() + decimal(version) + seq!['\n']
}

/// The whole text of a file, its last `\n` taken off.
pub open spec fn file_text(
    l: Seq<EntryView>,
    pairs: Seq<(Seq<char>, ValueView)>,
    version: nat,
) -> Seq<char> {
    (header_text(version) + layout_text(l, map_of(pairs)) + extra_text(pairs, l)).drop_last()
}

fn layout_has_key(layout: &Vec<LayoutEntry>, k: &String) -> (r: bool)
    ensures
        r == in_layout(layout_view(layout@), k@),
{
    let ghost l = layout_view(layout@);
    let mut i: usize = 0;
    while i < layout.len()
        invariant
            i <= layout@.len(),
            l == layout_view(layout@),
            forall|j: int| 0 <= j < i ==> l[j] != EntryView::Key(k@),
        decreases layout@.len() - i,
    {
        match &layout[i] {
            LayoutEntry::Key(key) => {
                if *key == *k {
                    assert(l[i as int] == EntryView::Key(k@));
                    return true;
                }
            },
            _ => {},
        }
        i += 1;
    }
    false
}

fn push_pair(out: &mut Vec<char>, k: &String, v: &crate::data::Value)
    ensures
        final(out)@ == old(out)@ + pair_text(k@, v@),
{
    let kc = chars_of(k.as_str());
    push_all(out, &kc);
    out.push(':');
    out.push(' ');
    v.push_formatted(out);
    out.push('\n');
    assert(out@ =~= old(out)@ + pair_text(k@, v@));
}

/// Writes a layout and its values back as text, with the version header first.
/// Returns the text and one error for each key of the layout that has no value.
pub fn format_file(layout: &Vec<LayoutEntry>, values: &ValueMap, version: usize) -> (r: (
    String,
    Vec<FormatEntryError>,
))
    ensures
        r.0@ == file_text(layout_view(layout@), values.entries(), version as nat),
        r.1@.map_values(|e: FormatEntryError| e.missing_key@) == missing_keys(
            layout_view(layout@),
            values@,
        ),
{
    let ghost l = layout_view(layout@);
    let ghost m = values@;
    let mut out: Vec<char> = Vec::new();
    let mut errors: Vec<FormatEntryError> = Vec::new();
    out.push('f');
    out.push('o');
    out.push('r');
    out.push('m');
    out.push('a');
    out.push('t');
    out.push(' ');
    push_decimal(&mut out, version as u64);
    out.push('\n');
    let ghost head = out@;
    assert(head =~= header_text(version as nat));
    let mut i: usize = 0;
    while i < layout.len()
        invariant
            i <= layout@.len(),
            l == layout_view(layout@),
            m == values@,
            head == header_text(version as nat),
            out@ == head + layout_text(l.take(i as int), m),
            errors@.map_values(|e: FormatEntryError| e.missing_key@) == missing_keys(
                l.take(i as int),
                m,
            ),
        decreases layout@.len() - i,
    {
        let ghost prev = out@;
        let ghost prev_errors = errors@;
        assert(l.take(i + 1).drop_last() =~= l.take(i as int));
        assert(l.take(i + 1).last() == layout@[i as int]@);
        match &layout[i] {
            LayoutEntry::Empty => {
                out.push('\n');
            },
            LayoutEntry::Comment(c) => {
                let cc = chars_of(c.as_str());
                let mut has_newline = false;
                let mut k: usize = 0;
                while k < cc.len()
                    invariant
                        k <= cc@.len(),
                        has_newline == (exists|j: int| 0 <= j < k && cc@[j] == '\n'),
                    decreases cc@.len() - k,
                {
                    if cc[k] == '\n' {
                        has_newline = true;
                    }
                    k += 1;
                }
                proof {
                    if has_newline {
                        let j = choose|j: int| 0 <= j < cc@.len() && cc@[j] == '\n';
                        assert(cc@.contains('\n'));
                    }
                }
                if has_newline {
                    out.push('#');
                    out.push('#');
                    out.push('\n');
                    push_all(&mut out, &cc);
                    out.push('\n');
                    out.push('#');
                    out.push('#');
                } else {
                    out.push('#');
                    push_all(&mut out, &cc);
                }
                out.push('\n');
            },
            LayoutEntry::Key(key) => {
                match values.get(key.as_str()) {
                    Some(v) => {
                        push_pair(&mut out, key, v);
                    },
                    None => {
                        errors.push(FormatEntryError::new(key.as_str()));
                        assert(errors@.map_values(|e: FormatEntryError| e.missing_key@)
                            =~= prev_errors.map_values(|e: FormatEntryError| e.missing_key@).push(
                            key@,
                        ));
                    },
                }
            },
        }
        assert(out@ =~= head + layout_text(l.take(i + 1), m));
        i += 1;
    }
    assert(l.take(layout@.len() as int) =~= l);
    let ghost mid = out@;
    let ghost pairs = values.entries();
    let n = values.len();
    let mut j: usize = 0;
    while j < n
        invariant
            j <= n,
            n == values.entries().len(),
            pairs == values.entries(),
            l == layout_view(layout@),
            out@ == mid + extra_text(pairs.take(j as int), l),
        decreases n - j,
    {
        let k = values.key_at(j);
        assert(pairs.take(j + 1).drop_last() =~= pairs.take(j as int));
        if !layout_has_key(layout, k) {
            push_pair(&mut out, k, values.value_at(j));
        }
        assert(out@ =~= mid + extra_text(pairs.take(j + 1), l));
        j += 1;
    }
    assert(pairs.take(n as int) =~= pairs);
    out.pop();
    assert(out@ =~= file_text(l, pairs, version as nat));
    (string_from_chars(&out), errors)
}

} // verus!
