use vstd::prelude::*;
use vstd::std_specs::iter::IteratorSpec;

verus! {

broadcast use vstd::string::group_string_axioms;

/// Unicode `White_Space`: the characters that `char::is_whitespace` accepts.
pub open spec fn is_ws(c: char) -> bool {
    let n = c as u32;
    ||| 0x09 <= n <= 0x0D
    ||| n == 0x20
    ||| n == 0x85
    ||| n == 0xA0
    ||| n == 0x1680
    ||| 0x2000 <= n <= 0x200A
    ||| n == 0x2028
    ||| n == 0x2029
    ||| n == 0x202F
    ||| n == 0x205F
    ||| n == 0x3000
}

pub fn is_whitespace_char(c: char) -> (r: bool)
    ensures
        r == is_ws(c),
{
    let n = c as u32;
    (0x09 <= n && n <= 0x0D) || n == 0x20 || n == 0x85 || n == 0xA0 || n == 0x1680 || (0x2000
        <= n && n <= 0x200A) || n == 0x2028 || n == 0x2029 || n == 0x202F || n == 0x205F || n
        == 0x3000
}

/// The text with its leading whitespace removed.
pub open spec fn trim_start(s: Seq<char>) -> Seq<char>
    decreases s.len(),
{
    if s.len() > 0 && is_ws(s[0]) {
        trim_start(s.drop_first())
    } else {
        s
    }
}

/// The text with its trailing whitespace removed.
pub open spec fn trim_end(s: Seq<char>) -> Seq<char>
    decreases s.len(),
{
    if s.len() > 0 && is_ws(s.last()) {
        trim_end(s.drop_last())
    } else {
        s
    }
}

pub open spec fn trim(s: Seq<char>) -> Seq<char> {
    trim_end(trim_start(s))
}

pub open spec fn is_digit(c: char) -> bool {
    '0' <= c && c <= '9'
}

pub open spec fn digit_value(c: char) -> nat {
    (c as u32 - '0' as u32) as nat
}

pub open spec fn all_digits(s: Seq<char>) -> bool {
    forall|i: int| 0 <= i < s.len() ==> is_digit(#[trigger] s[i])
}

/// The number that a run of decimal digits denotes.
pub open spec fn digits_value(s: Seq<char>) -> nat
    decreases s.len(),
{
    if s.len() == 0 {
        0
    } else {
        digits_value(s.drop_last()) * 10 + digit_value(s.last())
    }
}

pub open spec fn digit_char(d: nat) -> char {
    ((d + '0' as u32) as u32) as char
}

/// The decimal digits of a natural number, without leading zeros.
pub open spec fn decimal(n: nat) -> Seq<char>
    decreases n,
{
    if n < 10 {
        seq![digit_char(n)]
    } else {
        decimal(n / 10).push(digit_char(n % 10))
    }
}

/// The decimal text of an integer, with a leading `-` when it is negative.
pub open spec fn signed_decimal(n: int) -> Seq<char> {
    if n < 0 {
        seq!['-'] + decimal((-n) as nat)
    } else {
        decimal(n as nat)
    }
}

/// Lines separated by `\n`, joined back together.
pub open spec fn join_lines(ls: Seq<Seq<char>>) -> Seq<char>
    decreases ls.len(),
{
    if ls.len() == 0 {
        Seq::empty()
    } else if ls.len() == 1 {
        ls[0]
    } else {
        join_lines(ls.drop_last()) + seq!['\n'] + ls.last()
    }
}

/// The pieces of a text between its `\n` characters (always at least one).
pub open spec fn split_lines(s: Seq<char>) -> Seq<Seq<char>>
    decreases s.len(),
{
    if s.len() == 0 {
        seq![Seq::empty()]
    } else {
        let r = split_lines(s.drop_last());
        if s.last() == '\n' {
            r.push(Seq::empty())
        } else {
            r.update(r.len() - 1, r.last().push(s.last()))
        }
    }
}

/// ASCII letters lowered; every other character is kept.
pub open spec fn ascii_lower(c: char) -> char {
    if 'A' <= c && c <= 'Z' {
        ((c as u32 + 32) as u32) as char
    } else {
        c
    }
}

pub open spec fn eq_ignore_case(s: Seq<char>, word: Seq<char>) -> bool {
    s.len() == word.len() && forall|i: int| 0 <= i < s.len() ==> ascii_lower(#[trigger] s[i]) == word[i]
}

pub proof fn lemma_split_lines_len(s: Seq<char>)
    ensures
        split_lines(s).len() >= 1,
    decreases s.len(),
{
    if s.len() > 0 {
        lemma_split_lines_len(s.drop_last());
    }
}

pub proof fn lemma_digits_value_monotone(s: Seq<char>, i: int)
    requires
        0 <= i <= s.len(),
    ensures
        digits_value(s.take(i)) <= digits_value(s),
    decreases s.len(),
{
    if i < s.len() {
        assert(s.drop_last().take(i) =~= s.take(i));
        lemma_digits_value_monotone(s.drop_last(), i);
    } else {
        assert(s.take(i) =~= s);
    }
}

/// Relies on `FromIterator<&char> for String`: the string holds the chars in order.
#[verifier::external_body]
pub fn string_from_chars(v: &Vec<char>) -> (r: String)
    ensures
        r@ == v@,
{
    v.iter().collect()
}

pub fn chars_of(s: &str) -> (r: Vec<char>)
    ensures
        r@ == s@,
{
    let mut out: Vec<char> = Vec::new();
    for c in it: s.chars()
        invariant
            out@ == it.seq().take(it.index() as int),
            it.seq() == s@,
    {
        out.push(c);
    }
    out
}

pub fn push_all(out: &mut Vec<char>, s: &Vec<char>)
    ensures
        final(out)@ == old(out)@ + s@,
{
    let mut i: usize = 0;
    while i < s.len()
        invariant
            i <= s@.len(),
            out@ == old(out)@ + s@.take(i as int),
        decreases s@.len() - i,
    {
        out.push(s[i]);
        i += 1;
        assert(s@.take(i as int) =~= s@.take(i - 1) .push(s@[i - 1]));
    }
    assert(s@.take(s@.len() as int) =~= s@);
}

pub fn push_str(out: &mut Vec<char>, s: &str)
    ensures
        final(out)@ == old(out)@ + s@,
{
    let v = chars_of(s);
    push_all(out, &v);
}

pub fn sub_vec(v: &Vec<char>, a: usize, b: usize) -> (r: Vec<char>)
    requires
        a <= b <= v@.len(),
    ensures
        r@ == v@.subrange(a as int, b as int),
{
    let mut out: Vec<char> = Vec::new();
    let mut i: usize = a;
    while i < b
        invariant
            a <= i <= b <= v@.len(),
            out@ == v@.subrange(a as int, i as int),
        decreases b - i,
    {
        out.push(v[i]);
        i += 1;
        assert(out@ =~= v@.subrange(a as int, i as int));
    }
    out
}

/// Index of the first character that is not whitespace (the length if none is).
pub fn trim_start_index(v: &Vec<char>) -> (r: usize)
    ensures
        r <= v@.len(),
        v@.subrange(r as int, v@.len() as int) == trim_start(v@),
{
    let mut i: usize = 0;
    assert(v@.subrange(0, v@.len() as int) =~= v@);
    while i < v.len() && is_whitespace_char(v[i])
        invariant
            i <= v@.len(),
            trim_start(v@.subrange(i as int, v@.len() as int)) == trim_start(v@),
        decreases v@.len() - i,
    {
        assert(v@.subrange(i as int, v@.len() as int).drop_first() =~= v@.subrange(
            i + 1,
            v@.len() as int,
        ));
        i += 1;
    }
    i
}

/// End index of `v[a..]` once trailing whitespace is removed.
pub fn trim_end_index(v: &Vec<char>, a: usize) -> (r: usize)
    requires
        a <= v@.len(),
    ensures
        a <= r <= v@.len(),
        v@.subrange(a as int, r as int) == trim_end(v@.subrange(a as int, v@.len() as int)),
{
    let mut j: usize = v.len();
    while j > a && is_whitespace_char(v[j - 1])
        invariant
            a <= j <= v@.len(),
            trim_end(v@.subrange(a as int, j as int)) == trim_end(
                v@.subrange(a as int, v@.len() as int),
            ),
        decreases j,
    {
        assert(v@.subrange(a as int, j as int).drop_last() =~= v@.subrange(
            a as int,
            j - 1,
        ));
        j -= 1;
    }
    j
}

pub fn trimmed(v: &Vec<char>) -> (r: Vec<char>)
    ensures
        r@ == trim(v@),
{
    let a = trim_start_index(v);
    let b = trim_end_index(v, a);
    sub_vec(v, a, b)
}

pub fn trimmed_start(v: &Vec<char>) -> (r: Vec<char>)
    ensures
        r@ == trim_start(v@),
{
    let a = trim_start_index(v);
    sub_vec(v, a, v.len())
}

pub fn is_digit_char(c: char) -> (r: bool)
    ensures
        r == is_digit(c),
{
    '0' <= c && c <= '9'
}

fn to_lower_ascii(c: char) -> (r: char)
    ensures
        r == ascii_lower(c),
{
    if 'A' <= c && c <= 'Z' {
        ((c as u32 + 32) as u8) as char
    } else {
        c
    }
}

/// Whether `s` spells `word` with ASCII letters compared case-insensitively.
pub fn equals_ignore_case(s: &Vec<char>, word: &Vec<char>) -> (r: bool)
    ensures
        r == eq_ignore_case(s@, word@),
{
    if s.len() != word.len() {
        return false;
    }
    let mut i: usize = 0;
    while i < s.len()
        invariant
            s@.len() == word@.len(),
            i <= s@.len(),
            forall|k: int| 0 <= k < i ==> ascii_lower(#[trigger] s@[k]) == word@[k],
        decreases s@.len() - i,
    {
        if to_lower_ascii(s[i]) != word[i] {
            return false;
        }
        i += 1;
    }
    true
}

/// Reads `v[lo..]` as a run of decimal digits whose value is at most `limit`.
pub fn parse_digits(v: &Vec<char>, lo: usize, limit: u64) -> (r: Option<u64>)
    requires
        lo <= v@.len(),
        limit >= 9,
    ensures
        ({
            let s = v@.subrange(lo as int, v@.len() as int);
            match r {
                Some(n) => s.len() > 0 && all_digits(s) && digits_value(s) <= limit && n
                    == digits_value(s),
                None => !(s.len() > 0 && all_digits(s) && digits_value(s) <= limit),
            }
        }),
{
    let ghost s = v@.subrange(lo as int, v@.len() as int);
    if lo == v.len() {
        return None;
    }
    let mut acc: u64 = 0;
    let mut i: usize = lo;
    while i < v.len()
        invariant
            lo <= i <= v@.len(),
            s == v@.subrange(lo as int, v@.len() as int),
            all_digits(s.take(i - lo)),
            acc == digits_value(s.take(i - lo)),
            acc <= limit,
            limit >= 9,
        decreases v@.len() - i,
    {
        let c = v[i];
        assert(s[i - lo] == c);
        if !is_digit_char(c) {
            return None;
        }
        let d = (c as u32 - '0' as u32) as u64;
        assert(s.take(i - lo + 1).drop_last() =~= s.take(i - lo));
        if acc > (limit - d) / 10 {
            proof {
                assert(digits_value(s.take(i - lo + 1)) == acc * 10 + d);
                assert(acc * 10 + d > limit) by (nonlinear_arith)
                    requires
                        acc > (limit - d) / 10,
                        d <= limit,
                ;
                lemma_digits_value_monotone(s, i - lo + 1);
            }
            return None;
        }
        proof {
            assert(acc * 10 + d <= limit) by (nonlinear_arith)
                requires
                    acc <= (limit - d) / 10,
                    d <= limit,
            ;
        }
        acc = acc * 10 + d;
        i += 1;
        assert(all_digits(s.take(i - lo))) by {
            assert forall|k: int| 0 <= k < s.take(i - lo).len() implies is_digit(
                #[trigger] s.take(i - lo)[k],
            ) by {
                if k < i - lo - 1 {
                    assert(s.take(i - lo)[k] == s.take(i - lo - 1)[k]);
                }
            }
        }
    }
    assert(s.take(i - lo) =~= s);
    Some(acc)
}

} // verus!
