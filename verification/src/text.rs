//! Character classes, text measures and sequence helpers shared by the
//! grammar parser, the generator and the command-line logic.

use vstd::prelude::*;
use vstd::string::StringExecFns;
use vstd::utf8::encode_utf8;
use vstd::utf8::encode_scalar;

verus! {

broadcast use vstd::string::group_string_axioms;

// ---------------------------------------------------------------------------
// Character predicates
// ---------------------------------------------------------------------------

/// The Unicode `White_Space` property, as `char::is_whitespace` tests it.
pub open spec fn is_ws(c: char) -> bool {
    let v = c as u32;
    ||| (0x09 <= v && v <= 0x0D)
    ||| v == 0x20
    ||| v == 0x85
    ||| v == 0xA0
    ||| v == 0x1680
    ||| (0x2000 <= v && v <= 0x200A)
    ||| v == 0x2028
    ||| v == 0x2029
    ||| v == 0x202F
    ||| v == 0x205F
    ||| v == 0x3000
}

/// Tests whether `c` is Unicode whitespace.
pub fn char_is_ws(c: char) -> (r: bool)
    ensures
        r == is_ws(c),
{
    let v = c as u32;
    (0x09 <= v && v <= 0x0D) || v == 0x20 || v == 0x85 || v == 0xA0 || v == 0x1680 || (0x2000
        <= v && v <= 0x200A) || v == 0x2028 || v == 0x2029 || v == 0x202F || v == 0x205F || v
        == 0x3000
}

pub open spec fn is_ascii_digit(c: char) -> bool {
    '0' <= c && c <= '9'
}

pub open spec fn is_ascii_alpha(c: char) -> bool {
    ('a' <= c && c <= 'z') || ('A' <= c && c <= 'Z')
}

/// A rule name: a letter or underscore, then letters, digits and underscores.
pub open spec fn is_ident(s: Seq<char>) -> bool {
    &&& s.len() > 0
    &&& (is_ascii_alpha(s[0]) || s[0] == '_')
    &&& forall|i: int|
        1 <= i < s.len() ==> is_ascii_alpha(#[trigger] s[i]) || is_ascii_digit(s[i]) || s[i]
            == '_'
}

pub fn char_is_digit(c: char) -> (r: bool)
    ensures
        r == is_ascii_digit(c),
{
    '0' <= c && c <= '9'
}

/// Tests whether `s` is a valid rule name.
pub fn is_identifier(s: &Vec<char>) -> (r: bool)
    ensures
        r == is_ident(s@),
{
    if s.len() == 0 {
        return false;
    }
    let c0 = s[0];
    if !(('a' <= c0 && c0 <= 'z') || ('A' <= c0 && c0 <= 'Z') || c0 == '_') {
        return false;
    }
    let mut i: usize = 1;
    while i < s.len()
        invariant
            1 <= i <= s.len(),
            forall|j: int|
                1 <= j < i ==> is_ascii_alpha(#[trigger] s@[j]) || is_ascii_digit(s@[j]) || s@[j]
                    == '_',
        decreases s.len() - i,
    {
        let c = s[i];
        if !(('a' <= c && c <= 'z') || ('A' <= c && c <= 'Z') || ('0' <= c && c <= '9') || c
            == '_') {
            assert(!(is_ascii_alpha(s@[i as int]) || is_ascii_digit(s@[i as int]) || s@[i as int]
                == '_'));
            return false;
        }
        i = i + 1;
    }
    true
}

// ---------------------------------------------------------------------------
// Counting, searching and trimming
// ---------------------------------------------------------------------------

/// How many times `c` occurs in `s`.
pub open spec fn count_char(s: Seq<char>, c: char) -> nat
    decreases s.len(),
{
    if s.len() == 0 {
        0
    } else {
        count_char(s.drop_last(), c) + if s.last() == c {
            1nat
        } else {
            0nat
        }
    }
}

/// Counts the occurrences of `c` in `s`.
pub fn count_in(s: &Vec<char>, c: char) -> (r: usize)
    ensures
        r == count_char(s@, c),
{
    let mut n: usize = 0;
    let mut i: usize = 0;
    while i < s.len()
        invariant
            i <= s.len(),
            n == count_char(s@.take(i as int), c),
            n <= i,
        decreases s.len() - i,
    {
        assert(s@.take(i + 1).drop_last() =~= s@.take(i as int));
        if s[i] == c {
            n = n + 1;
        }
        i = i + 1;
    }
    assert(s@.take(s.len() as int) =~= s@);
    n
}

/// The index of the first `c` in `s`, if any.
pub open spec fn find_char(s: Seq<char>, c: char) -> Option<nat>
    decreases s.len(),
{
    if s.len() == 0 {
        None
    } else if s[0] == c {
        Some(0)
    } else {
        match find_char(s.drop_first(), c) {
            Some(k) => Some(k + 1),
            None => None,
        }
    }
}

pub proof fn lemma_find_char_first(s: Seq<char>, c: char, k: int)
    requires
        0 <= k < s.len(),
        s[k] == c,
        forall|j: int| 0 <= j < k ==> s[j] != c,
    ensures
        find_char(s, c) == Some(k as nat),
    decreases k,
{
    if k > 0 {
        lemma_find_char_first(s.drop_first(), c, k - 1);
    }
}

pub proof fn lemma_find_char_none(s: Seq<char>, c: char)
    requires
        forall|j: int| 0 <= j < s.len() ==> s[j] != c,
    ensures
        find_char(s, c) == None::<nat>,
    decreases s.len(),
{
    if s.len() > 0 {
        lemma_find_char_none(s.drop_first(), c);
    }
}

pub proof fn lemma_find_char_bound(s: Seq<char>, c: char)
    ensures
        find_char(s, c) matches Some(k) ==> k < s.len() && s[k as int] == c && forall|j: int|
            0 <= j < k ==> s[j] != c,
        find_char(s, c) is None ==> forall|j: int| 0 <= j < s.len() ==> s[j] != c,
    decreases s.len(),
{
    if s.len() > 0 && s[0] != c {
        lemma_find_char_bound(s.drop_first(), c);
        if find_char(s, c) is None {
            assert forall|j: int| 0 <= j < s.len() implies s[j] != c by {
                if j > 0 {
                    assert(s[j] == s.drop_first()[j - 1]);
                }
            }
        }
        if let Some(k) = find_char(s, c) {
            assert forall|j: int| 0 <= j < k implies s[j] != c by {
                if j > 0 {
                    assert(s[j] == s.drop_first()[j - 1]);
                }
            }
        }
    }
}

/// Searches `s[from..]` for `c` and returns the absolute index of its first
/// occurrence there.
pub fn find_from(s: &Vec<char>, from: usize, c: char) -> (r: Option<usize>)
    requires
        from <= s.len(),
    ensures
        find_char(s@.skip(from as int), c) == (match r {
            Some(k) => Some((k - from) as nat),
            None => None,
        }),
        r matches Some(k) ==> from <= k < s.len() && s@[k as int] == c,
{
    let mut i = from;
    while i < s.len()
        invariant
            from <= i <= s.len(),
            forall|j: int| from <= j < i ==> s@[j] != c,
        decreases s.len() - i,
    {
        if s[i] == c {
            proof {
                lemma_find_char_first(s@.skip(from as int), c, i - from);
            }
            return Some(i);
        }
        i = i + 1;
    }
    proof {
        lemma_find_char_none(s@.skip(from as int), c);
    }
    None
}

/// The number of whitespace characters at the start of `s`.
pub open spec fn lead_ws(s: Seq<char>) -> nat
    decreases s.len(),
{
    if s.len() > 0 && is_ws(s[0]) {
        1 + lead_ws(s.drop_first())
    } else {
        0
    }
}

/// The number of whitespace characters at the end of `s`.
pub open spec fn trail_ws(s: Seq<char>) -> nat
    decreases s.len(),
{
    if s.len() > 0 && is_ws(s.last()) {
        1 + trail_ws(s.drop_last())
    } else {
        0
    }
}

/// `s` without its leading whitespace (`str::trim_start`).
pub open spec fn trim_start(s: Seq<char>) -> Seq<char> {
    s.skip(lead_ws(s) as int)
}

/// `s` without its trailing whitespace (`str::trim_end`).
pub open spec fn trim_end(s: Seq<char>) -> Seq<char> {
    s.take(s.len() - trail_ws(s))
}

/// `s` without leading and trailing whitespace (`str::trim`).
pub open spec fn trim(s: Seq<char>) -> Seq<char> {
    trim_end(trim_start(s))
}

pub proof fn lemma_lead_ws(s: Seq<char>, k: int)
    requires
        0 <= k <= s.len(),
        forall|j: int| 0 <= j < k ==> is_ws(s[j]),
        k == s.len() || !is_ws(s[k]),
    ensures
        lead_ws(s) == k,
    decreases k,
{
    if k > 0 {
        lemma_lead_ws(s.drop_first(), k - 1);
    }
}

pub proof fn lemma_trail_ws(s: Seq<char>, k: int)
    requires
        0 <= k <= s.len(),
        forall|j: int| s.len() - k <= j < s.len() ==> is_ws(s[j]),
        k == s.len() || !is_ws(s[s.len() - k - 1]),
    ensures
        trail_ws(s) == k,
    decreases k,
{
    if k > 0 {
        lemma_trail_ws(s.drop_last(), k - 1);
    }
}

pub proof fn lemma_lead_ws_bound(s: Seq<char>)
    ensures
        lead_ws(s) <= s.len(),
        forall|j: int| 0 <= j < lead_ws(s) ==> is_ws(s[j]),
        lead_ws(s) < s.len() ==> !is_ws(s[lead_ws(s) as int]),
    decreases s.len(),
{
    if s.len() > 0 && is_ws(s[0]) {
        lemma_lead_ws_bound(s.drop_first());
        assert forall|j: int| 0 <= j < lead_ws(s) implies is_ws(s[j]) by {
            if j > 0 {
                assert(s[j] == s.drop_first()[j - 1]);
            }
        }
    }
}

pub proof fn lemma_trail_ws_bound(s: Seq<char>)
    ensures
        trail_ws(s) <= s.len(),
    decreases s.len(),
{
    if s.len() > 0 {
        lemma_trail_ws_bound(s.drop_last());
    }
}

/// Counts the leading whitespace characters of `s`.
pub fn lead_ws_count(s: &Vec<char>) -> (r: usize)
    ensures
        r == lead_ws(s@),
        r <= s.len(),
{
    let mut i: usize = 0;
    while i < s.len() && char_is_ws(s[i])
        invariant
            i <= s.len(),
            forall|j: int| 0 <= j < i ==> is_ws(s@[j]),
        decreases s.len() - i,
    {
        i = i + 1;
    }
    proof {
        lemma_lead_ws(s@, i as int);
    }
    i
}

/// Counts the trailing whitespace characters of `s`.
pub fn trail_ws_count(s: &Vec<char>) -> (r: usize)
    ensures
        r == trail_ws(s@),
        r <= s.len(),
{
    let mut k: usize = 0;
    while k < s.len() && char_is_ws(s[s.len() - k - 1])
        invariant
            k <= s.len(),
            forall|j: int| s.len() - k <= j < s.len() ==> is_ws(s@[j]),
        decreases s.len() - k,
    {
        k = k + 1;
    }
    proof {
        lemma_trail_ws(s@, k as int);
    }
    k
}

/// A copy of `s[lo..hi]`.
pub fn sub_chars(s: &Vec<char>, lo: usize, hi: usize) -> (r: Vec<char>)
    requires
        lo <= hi <= s.len(),
    ensures
        r@ == s@.subrange(lo as int, hi as int),
{
    let mut r: Vec<char> = Vec::new();
    let mut i = lo;
    while i < hi
        invariant
            lo <= i <= hi <= s.len(),
            r@ == s@.subrange(lo as int, i as int),
        decreases hi - i,
    {
        r.push(s[i]);
        i = i + 1;
        assert(r@ =~= s@.subrange(lo as int, i as int));
    }
    r
}

/// `s` with its leading and trailing whitespace removed.
pub fn trim_chars(s: &Vec<char>) -> (r: Vec<char>)
    ensures
        r@ == trim(s@),
{
    let a = lead_ws_count(s);
    let t = sub_chars(s, a, s.len());
    let b = trail_ws_count(&t);
    sub_chars(&t, 0, t.len() - b)
}

// ---------------------------------------------------------------------------
// UTF-8 byte measures (columns are byte offsets, as `str` indexes them)
// ---------------------------------------------------------------------------

/// The number of UTF-8 bytes that encode `c`.
pub open spec fn cwidth(c: char) -> nat {
    encode_scalar(c as u32).len()
}

/// The number of UTF-8 bytes that encode `s`.
pub open spec fn blen(s: Seq<char>) -> nat {
    encode_utf8(s).len()
}

pub proof fn lemma_blen_concat(a: Seq<char>, b: Seq<char>)
    ensures
        blen(a + b) == blen(a) + blen(b),
    decreases a.len(),
{
    if a.len() > 0 {
        assert((a + b).drop_first() =~= a.drop_first() + b);
        lemma_blen_concat(a.drop_first(), b);
    } else {
        assert(a + b =~= b);
    }
}

pub proof fn lemma_blen_single(c: char)
    ensures
        blen(seq![c]) == cwidth(c),
{
    assert(seq![c].drop_first() =~= Seq::<char>::empty());
    assert(encode_utf8(Seq::<char>::empty()) =~= Seq::<u8>::empty());
    assert(encode_utf8(seq![c]) == encode_scalar(c as u32) + encode_utf8(seq![c].drop_first()));
    assert(encode_utf8(seq![c]) =~= encode_scalar(c as u32));
}

/// Splitting `s` at `i` splits its byte length.
pub proof fn lemma_blen_split(s: Seq<char>, i: int)
    requires
        0 <= i <= s.len(),
    ensures
        blen(s) == blen(s.take(i)) + blen(s.skip(i)),
{
    assert(s =~= s.take(i) + s.skip(i));
    lemma_blen_concat(s.take(i), s.skip(i));
}

/// The byte length of a sub-range composes from the byte lengths of prefixes.
pub proof fn lemma_blen_subrange(s: Seq<char>, i: int, j: int)
    requires
        0 <= i <= j <= s.len(),
    ensures
        blen(s.take(j)) == blen(s.take(i)) + blen(s.subrange(i, j)),
        blen(s.take(j)) <= blen(s),
{
    assert(s.take(j) =~= s.take(i) + s.subrange(i, j));
    lemma_blen_concat(s.take(i), s.subrange(i, j));
    lemma_blen_split(s, j);
}

pub proof fn lemma_blen_step(s: Seq<char>, i: int)
    requires
        0 <= i < s.len(),
    ensures
        blen(s.take(i + 1)) == blen(s.take(i)) + cwidth(s[i]),
{
    assert(s.take(i + 1) =~= s.take(i) + seq![s[i]]);
    lemma_blen_concat(s.take(i), seq![s[i]]);
    lemma_blen_single(s[i]);
}

pub proof fn lemma_cwidth(c: char)
    ensures
        1 <= cwidth(c) <= 4,
        (c as u32) <= 0x7F ==> cwidth(c) == 1,
{
}

/// The number of UTF-8 bytes that encode `c`.
pub fn char_width(c: char) -> (r: usize)
    ensures
        r == cwidth(c),
        1 <= r <= 4,
{
    let v = c as u32;
    if v <= 0x7F {
        1
    } else if v <= 0x7FF {
        2
    } else if v <= 0xFFFF {
        3
    } else {
        4
    }
}

/// The byte length of the first `n` characters of `s`.
pub fn prefix_blen(s: &Vec<char>, n: usize) -> (r: usize)
    requires
        n <= s.len(),
        blen(s@) <= usize::MAX,
    ensures
        r == blen(s@.take(n as int)),
{
    let mut b: usize = 0;
    let mut i: usize = 0;
    while i < n
        invariant
            i <= n <= s.len(),
            blen(s@) <= usize::MAX,
            b == blen(s@.take(i as int)),
        decreases n - i,
    {
        proof {
            lemma_blen_step(s@, i as int);
            lemma_blen_subrange(s@, i + 1, i + 1);
        }
        b = b + char_width(s[i]);
        i = i + 1;
    }
    b
}

// ---------------------------------------------------------------------------
// Lines (`str::lines`)
// ---------------------------------------------------------------------------

/// A line without the carriage return of a `\r\n` ending.
pub open spec fn strip_cr(l: Seq<char>) -> Seq<char> {
    if l.len() > 0 && l.last() == '\r' {
        l.drop_last()
    } else {
        l
    }
}

/// The lines of `s`, as `str::lines` yields them: split at `\n`, a `\r`
/// just before the `\n` dropped, and no empty line after a final `\n`.
pub open spec fn lines_of(s: Seq<char>) -> Seq<Seq<char>>
    decreases s.len(),
{
    if s.len() == 0 {
        seq![]
    } else {
        match find_char(s, '\n') {
            None => seq![s],
            Some(k) => {
                proof {
                    lemma_find_char_bound(s, '\n');
                }
                seq![strip_cr(s.take(k as int))] + lines_of(s.skip((k + 1) as int))
            },
        }
    }
}

/// No line of `s` is longer, in bytes, than `s`.
pub proof fn lemma_lines_blen(s: Seq<char>)
    ensures
        forall|i: int| 0 <= i < lines_of(s).len() ==> blen(#[trigger] lines_of(s)[i]) <= blen(s),
    decreases s.len(),
{
    if s.len() > 0 {
        lemma_find_char_bound(s, '\n');
        if let Some(k) = find_char(s, '\n') {
            let k = k as int;
            let first = s.take(k);
            lemma_blen_subrange(s, k, k);
            lemma_blen_split(s, k + 1);
            if first.len() > 0 {
                lemma_blen_split(first, first.len() - 1);
                assert(first.take(first.len() - 1) =~= first.drop_last());
            }
            lemma_lines_blen(s.skip(k + 1));
            assert forall|i: int| 0 <= i < lines_of(s).len() implies blen(
                #[trigger] lines_of(s)[i],
            ) <= blen(s) by {
                if i > 0 {
                    assert(lines_of(s)[i] == lines_of(s.skip(k + 1))[i - 1]);
                }
            }
        }
    }
}

/// Splits `s` into its lines.
pub fn split_lines(s: &Vec<char>) -> (r: Vec<Vec<char>>)
    ensures
        r.len() == lines_of(s@).len(),
        forall|i: int| 0 <= i < r.len() ==> (#[trigger] r[i])@ == lines_of(s@)[i],
{
    let mut out: Vec<Vec<char>> = Vec::new();
    let mut start: usize = 0;
    let ghost mut done: Seq<Seq<char>> = seq![];
    assert(s@.skip(0) =~= s@);
    while start < s.len()
        invariant
            start <= s.len(),
            out.len() == done.len(),
            forall|i: int| 0 <= i < out.len() ==> (#[trigger] out[i])@ == done[i],
            lines_of(s@) == done + lines_of(s@.skip(start as int)),
        decreases s.len() - start,
    {
        let rest = Ghost(s@.skip(start as int));
        match find_from(s, start, '\n') {
            None => {
                let line = sub_chars(s, start, s.len());
                assert(line@ =~= rest@);
                assert(lines_of(rest@) == seq![rest@]);
                out.push(line);
                proof {
                    done = done.push(rest@);
                }
                start = s.len();
                assert(s@.skip(start as int) =~= Seq::<char>::empty());
                assert(lines_of(s@) =~= done + lines_of(s@.skip(start as int)));
            },
            Some(k) => {
                let mut line = sub_chars(s, start, k);
                assert(line@ =~= rest@.take(k - start));
                if line.len() > 0 && line[line.len() - 1] == '\r' {
                    line.pop();
                }
                assert(line@ =~= strip_cr(rest@.take(k - start)));
                assert(rest@.skip(k - start + 1) =~= s@.skip(k + 1));
                out.push(line);
                proof {
                    done = done.push(strip_cr(rest@.take(k - start)));
                }
                start = k + 1;
                assert(lines_of(s@) =~= done + lines_of(s@.skip(start as int)));
            },
        }
        assert forall|i: int| 0 <= i < out.len() implies (#[trigger] out[i])@ == done[i] by {}
    }
    assert(s@.skip(start as int) =~= Seq::<char>::empty());
    assert(done + lines_of(s@.skip(start as int)) =~= done);
    out
}

// ---------------------------------------------------------------------------
// Strings
// ---------------------------------------------------------------------------

/// Appends `c` to `s` (`String::push`).
#[verifier::external_body]
pub fn push_char(s: &mut String, c: char)
    ensures
        final(s)@ == old(s)@.push(c),
{
    s.push(c);
}

/// Appends every character of `v` to `s`.
pub fn push_chars(s: &mut String, v: &Vec<char>)
    ensures
        final(s)@ == old(s)@ + v@,
{
    let ghost start = s@;
    let mut i: usize = 0;
    while i < v.len()
        invariant
            i <= v.len(),
            s@ == start + v@.take(i as int),
        decreases v.len() - i,
    {
        push_char(s, v[i]);
        i = i + 1;
        assert(s@ =~= start + v@.take(i as int));
    }
    assert(v@.take(v.len() as int) =~= v@);
}

/// The text `pre`, then `mid`, then `post`.
pub fn message3(pre: &str, mid: &Vec<char>, post: &str) -> (r: String)
    ensures
        r@ == pre@ + mid@ + post@,
{
    let mut s = String::from_str(pre);
    push_chars(&mut s, mid);
    s.append(post);
    s
}

/// A `String` holding the characters of `v`.
pub fn string_of(v: &Vec<char>) -> (r: String)
    ensures
        r@ == v@,
{
    let mut s = String::new();
    push_chars(&mut s, v);
    assert(s@ =~= v@);
    s
}

/// The characters of `s`.
pub fn chars_of(s: &str) -> (r: Vec<char>)
    ensures
        r@ == s@,
{
    let mut r: Vec<char> = Vec::new();
    for c in it: s.chars()
        invariant
            r@ == it.seq().take(it.index()),
    {
        r.push(c);
        assert(r@ =~= it.seq().take(it.index() + 1));
    }
    r
}

// ---------------------------------------------------------------------------
// Decimal numbers
// ---------------------------------------------------------------------------

/// The value of a string of ASCII digits.
pub open spec fn digits_value(d: Seq<char>) -> nat
    decreases d.len(),
{
    if d.len() == 0 {
        0
    } else {
        digits_value(d.drop_last()) * 10 + ((d.last() as u32) - 48) as nat
    }
}

pub proof fn lemma_digits_step(d: Seq<char>, i: int)
    requires
        0 <= i < d.len(),
    ensures
        digits_value(d.take(i + 1)) == digits_value(d.take(i)) * 10 + ((d[i] as u32) - 48) as nat,
{
    assert(d.take(i + 1).drop_last() =~= d.take(i));
}

pub proof fn lemma_digits_mono(d: Seq<char>, i: int)
    requires
        0 <= i <= d.len(),
    ensures
        digits_value(d.take(i)) <= digits_value(d),
    decreases d.len() - i,
{
    if i < d.len() {
        lemma_digits_mono(d, i + 1);
        lemma_digits_step(d, i);
    } else {
        assert(d.take(i) =~= d);
    }
}

pub open spec fn digit_char(d: nat) -> char {
    if d == 0 {
        '0'
    } else if d == 1 {
        '1'
    } else if d == 2 {
        '2'
    } else if d == 3 {
        '3'
    } else if d == 4 {
        '4'
    } else if d == 5 {
        '5'
    } else if d == 6 {
        '6'
    } else if d == 7 {
        '7'
    } else if d == 8 {
        '8'
    } else {
        '9'
    }
}

/// The decimal digits of `n`, as `{}` formats an unsigned integer.
pub open spec fn decimal(n: nat) -> Seq<char>
    decreases n,
{
    if n < 10 {
        seq![digit_char(n)]
    } else {
        decimal(n / 10).push(digit_char(n % 10))
    }
}

fn digit_of(d: usize) -> (c: char)
    requires
        d < 10,
    ensures
        c == digit_char(d as nat),
{
    if d == 0 {
        '0'
    } else if d == 1 {
        '1'
    } else if d == 2 {
        '2'
    } else if d == 3 {
        '3'
    } else if d == 4 {
        '4'
    } else if d == 5 {
        '5'
    } else if d == 6 {
        '6'
    } else if d == 7 {
        '7'
    } else if d == 8 {
        '8'
    } else {
        '9'
    }
}

/// Appends the decimal digits of `n` to `s`.
pub fn push_decimal(s: &mut String, n: usize)
    ensures
        final(s)@ == old(s)@ + decimal(n as nat),
    decreases n,
{
    if n < 10 {
        push_char(s, digit_of(n));
        assert(s@ =~= old(s)@ + decimal(n as nat));
    } else {
        push_decimal(s, n / 10);
        push_char(s, digit_of(n % 10));
        assert(s@ =~= old(s)@ + decimal(n as nat));
    }
}


// ---------------------------------------------------------------------------
// Laws of the text measures
// ---------------------------------------------------------------------------

/// The characters of Unicode's `White_Space` property, listed one by one.
pub open spec fn white_space(c: char) -> bool {
    ||| c == '\t'
    ||| c == '\n'
    ||| c == '\u{0B}'
    ||| c == '\u{0C}'
    ||| c == '\r'
    ||| c == ' '
    ||| c == '\u{85}'
    ||| c == '\u{A0}'
    ||| c == '\u{1680}'
    ||| ('\u{2000}' <= c && c <= '\u{200A}')
    ||| c == '\u{2028}'
    ||| c == '\u{2029}'
    ||| c == '\u{202F}'
    ||| c == '\u{205F}'
    ||| c == '\u{3000}'
}

/// A letter or underscore may start a name; digits may follow.
pub open spec fn name_start(c: char) -> bool {
    ('a' <= c && c <= 'z') || ('A' <= c && c <= 'Z') || c == '_'
}

pub open spec fn name_char(c: char) -> bool {
    name_start(c) || ('0' <= c && c <= '9')
}

/// A well-formed name: non-empty, a letter or `_` first, then letters,
/// digits and `_`.
pub open spec fn well_named(s: Seq<char>) -> bool {
    s.len() > 0 && name_start(s[0]) && forall|i: int| 1 <= i < s.len() ==> name_char(#[trigger] s[i])
}

/// Law: the identifiers that parsing accepts are exactly the well-formed
/// names.
pub proof fn lemma_identifiers_are_names(s: Seq<char>)
    ensures
        is_ident(s) <==> well_named(s),
{
}

/// Law: the whitespace that parsing skips is exactly Unicode `White_Space`.
pub proof fn lemma_ws_is_white_space(c: char)
    ensures
        is_ws(c) <==> white_space(c),
{
}

proof fn lemma_trail_ws_chars(s: Seq<char>)
    ensures
        trail_ws(s) <= s.len(),
        forall|j: int| s.len() - trail_ws(s) <= j < s.len() ==> is_ws(s[j]),
        trail_ws(s) < s.len() ==> !is_ws(s[s.len() - trail_ws(s) - 1]),
    decreases s.len(),
{
    if s.len() > 0 && is_ws(s.last()) {
        lemma_trail_ws_chars(s.drop_last());
        assert forall|j: int| s.len() - trail_ws(s) <= j < s.len() implies is_ws(s[j]) by {
            if j < s.len() - 1 {
                assert(s[j] == s.drop_last()[j]);
            }
        }
    }
}

/// Law: `trim_start` drops exactly the leading White_Space: the result is a
/// suffix of `s`, everything dropped is White_Space, and the result does
/// not start with White_Space.
pub proof fn lemma_trim_start_strips(s: Seq<char>)
    ensures
        exists|i: int|
            0 <= i <= s.len() && trim_start(s) == s.skip(i) && (forall|k: int|
                0 <= k < i ==> white_space(#[trigger] s[k])),
        trim_start(s).len() > 0 ==> !white_space(trim_start(s)[0]),
{
    lemma_lead_ws_bound(s);
    let i = lead_ws(s) as int;
    assert forall|k: int| 0 <= k < i implies white_space(#[trigger] s[k]) by {
        lemma_ws_is_white_space(s[k]);
    }
    if trim_start(s).len() > 0 {
        assert(trim_start(s)[0] == s[i]);
        lemma_ws_is_white_space(s[i]);
    }
    assert(0 <= i <= s.len() && trim_start(s) == s.skip(i) && (forall|k: int|
        0 <= k < i ==> white_space(#[trigger] s[k])));
}

/// Law: `trim` drops exactly the leading and trailing White_Space: the
/// result is a slice of `s`, everything dropped on either side is
/// White_Space, and the result neither starts nor ends with White_Space.
pub proof fn lemma_trim_strips(s: Seq<char>)
    ensures
        exists|i: int, j: int|
            0 <= i <= j <= s.len() && trim(s) == s.subrange(i, j) && (forall|k: int|
                0 <= k < i ==> white_space(#[trigger] s[k])) && (forall|k: int|
                j <= k < s.len() ==> white_space(#[trigger] s[k])),
        trim(s).len() > 0 ==> !white_space(trim(s)[0]) && !white_space(trim(s).last()),
{
    lemma_lead_ws_bound(s);
    let i = lead_ws(s) as int;
    let rest = s.skip(i);
    lemma_trail_ws_chars(rest);
    let j = i + rest.len() - trail_ws(rest);
    assert(trim(s) =~= s.subrange(i, j));
    assert forall|k: int| 0 <= k < i implies white_space(#[trigger] s[k]) by {
        lemma_ws_is_white_space(s[k]);
    }
    assert forall|k: int| j <= k < s.len() implies white_space(#[trigger] s[k]) by {
        assert(s[k] == rest[k - i]);
        lemma_ws_is_white_space(s[k]);
    }
    if trim(s).len() > 0 {
        assert(trim(s)[0] == s[i]);
        lemma_ws_is_white_space(s[i]);
        assert(trim(s).last() == rest[rest.len() - trail_ws(rest) - 1]);
        lemma_ws_is_white_space(trim(s).last());
    }
    assert(0 <= i <= j <= s.len() && trim(s) == s.subrange(i, j) && (forall|k: int|
        0 <= k < i ==> white_space(#[trigger] s[k])) && (forall|k: int|
        j <= k < s.len() ==> white_space(#[trigger] s[k])));
}

/// Law: trimming a text that is White_Space, then a word that neither
/// starts nor ends with White_Space, then White_Space again, gives the word.
pub proof fn lemma_trim_around(before: Seq<char>, word: Seq<char>, after: Seq<char>)
    requires
        forall|j: int| 0 <= j < before.len() ==> white_space(#[trigger] before[j]),
        forall|j: int| 0 <= j < after.len() ==> white_space(#[trigger] after[j]),
        word.len() > 0,
        !white_space(word[0]),
        !white_space(word.last()),
    ensures
        trim(before + word + after) == word,
{
    let s = before + word + after;
    assert forall|j: int| 0 <= j < before.len() implies is_ws(#[trigger] s[j]) by {
        lemma_ws_is_white_space(before[j]);
    }
    lemma_ws_is_white_space(word[0]);
    assert(s[before.len() as int] == word[0]);
    lemma_lead_ws(s, before.len() as int);
    let r = s.skip(before.len() as int);
    assert(r =~= word + after);
    assert forall|j: int| r.len() - after.len() <= j < r.len() implies is_ws(#[trigger] r[j]) by {
        assert(r[j] == after[j - word.len()]);
        lemma_ws_is_white_space(after[j - word.len()]);
    }
    lemma_ws_is_white_space(word.last());
    assert(r[r.len() - after.len() - 1] == word.last());
    lemma_trail_ws(r, after.len() as int);
    assert(trim(s) =~= word);
}

/// Law: a line that ends in `\n` or in `\r\n` is the text before that
/// ending, and the lines after it are those of the rest of the text.
pub proof fn lemma_line_endings(a: Seq<char>, b: Seq<char>)
    requires
        forall|j: int| 0 <= j < a.len() ==> #[trigger] a[j] != '\n' && a[j] != '\r',
    ensures
        lines_of(a + seq!['\n'] + b) == seq![a] + lines_of(b),
        lines_of(a + seq!['\r', '\n'] + b) == seq![a] + lines_of(b),
{
    let s1 = a + seq!['\n'] + b;
    let s2 = a + seq!['\r', '\n'] + b;
    assert forall|j: int| 0 <= j < a.len() implies s1[j] != '\n' && s2[j] != '\n' by {
        assert(s1[j] == a[j]);
        assert(s2[j] == a[j]);
    }
    lemma_find_char_first(s1, '\n', a.len() as int);
    assert(s2[a.len() as int] == '\r');
    lemma_find_char_first(s2, '\n', a.len() as int + 1);
    assert(s1.take(a.len() as int) =~= a);
    assert(s1.skip(a.len() as int + 1) =~= b);
    assert(s2.take(a.len() as int + 1) =~= a.push('\r'));
    assert(a.push('\r').drop_last() =~= a);
    assert(s2.skip(a.len() as int + 2) =~= b);
    if a.len() > 0 {
        assert(a.last() != '\r');
    }
    assert(strip_cr(a) == a);
}

/// Law: a last line with no line ending is the rest of the text, whole.
pub proof fn lemma_last_line(a: Seq<char>)
    requires
        a.len() > 0,
        forall|j: int| 0 <= j < a.len() ==> #[trigger] a[j] != '\n',
    ensures
        lines_of(a) == seq![a],
{
    lemma_find_char_none(a, '\n');
}

} // verus!
