//! Character-level helpers: white space, trimming, decimal digits and
//! `Debug` quoting, each with the statement it is proved against.
use vstd::prelude::*;

verus! {

/// Whether `c` has the Unicode `White_Space` property, which is what
/// `char::is_whitespace` reports: tab, line feed, vertical tab, form feed,
/// carriage return, space, next line, no-break space, ogham space mark, the
/// spaces from en quad to hair space, line separator, paragraph separator,
/// narrow no-break space, medium mathematical space and ideographic space.
pub open spec fn white_space(c: char) -> bool {
    let u = c as u32;
    ||| 0x09 <= u <= 0x0D
    ||| u == 0x20
    ||| u == 0x85
    ||| u == 0xA0
    ||| u == 0x1680
    ||| 0x2000 <= u <= 0x200A
    ||| u == 0x2028
    ||| u == 0x2029
    ||| u == 0x202F
    ||| u == 0x205F
    ||| u == 0x3000
}

/// Whether `c` is white space, as `char::is_whitespace` decides it.
pub(crate) fn is_whitespace(c: char) -> (r: bool)
    ensures
        r == white_space(c),
{
    let u = c as u32;
    (0x09 <= u && u <= 0x0D) || u == 0x20 || u == 0x85 || u == 0xA0 || u == 0x1680 || (0x2000 <= u
        && u <= 0x200A) || u == 0x2028 || u == 0x2029 || u == 0x202F || u == 0x205F || u == 0x3000
}

/// `String::push`: claimed to append `c` to the string's characters.
#[verifier::external_body]
pub(crate) fn push_char(s: &mut String, c: char)
    ensures
        final(s)@ == old(s)@.push(c),
{
    s.push(c)
}

/// Index of the first character at or after `i` that is not white space
/// (`s.len()` if there is none).
pub open spec fn skip_white_space(s: Seq<char>, i: int) -> int
    decreases s.len() - i,
{
    if 0 <= i < s.len() && white_space(s[i]) {
        skip_white_space(s, i + 1)
    } else {
        i
    }
}

/// One past the last character before `j` and at or after `lo` that is not
/// white space (`lo` if there is none).
pub open spec fn back_over_white_space(s: Seq<char>, lo: int, j: int) -> int
    decreases j - lo,
{
    if lo < j <= s.len() && white_space(s[j - 1]) {
        back_over_white_space(s, lo, j - 1)
    } else {
        j
    }
}

/// `s` without its leading and trailing white space, as `str::trim` gives it.
pub open spec fn trim(s: Seq<char>) -> Seq<char> {
    let start = skip_white_space(s, 0);
    s.subrange(start, back_over_white_space(s, start, s.len() as int))
}

proof fn lemma_skip_white_space_bounds(s: Seq<char>, i: int)
    requires
        0 <= i <= s.len(),
    ensures
        i <= skip_white_space(s, i) <= s.len(),
        skip_white_space(s, i) < s.len() ==> !white_space(s[skip_white_space(s, i)]),
        (skip_white_space(s, i) == i) <==> !(i < s.len() && white_space(s[i])),
    decreases s.len() - i,
{
    if i < s.len() && white_space(s[i]) {
        lemma_skip_white_space_bounds(s, i + 1);
    }
}

proof fn lemma_back_over_white_space_bounds(s: Seq<char>, lo: int, j: int)
    requires
        0 <= lo <= j <= s.len(),
    ensures
        lo <= back_over_white_space(s, lo, j) <= j,
        back_over_white_space(s, lo, j) > lo ==> !white_space(
            s[back_over_white_space(s, lo, j) - 1],
        ),
        (back_over_white_space(s, lo, j) == j) <==> !(lo < j && white_space(s[j - 1])),
    decreases j - lo,
{
    if lo < j && white_space(s[j - 1]) {
        lemma_back_over_white_space_bounds(s, lo, j - 1);
    }
}

/// Trimming never lengthens: the result is a part of `s`, and is `s` itself
/// exactly when `s` neither starts nor ends with white space.
pub proof fn lemma_trim_shape(s: Seq<char>)
    ensures
        trim(s).len() <= s.len(),
        (trim(s) == s) <==> (s.len() == 0 || (!white_space(s[0]) && !white_space(
            s[s.len() - 1],
        ))),
{
    lemma_skip_white_space_bounds(s, 0);
    let start = skip_white_space(s, 0);
    lemma_back_over_white_space_bounds(s, start, s.len() as int);
    let end = back_over_white_space(s, start, s.len() as int);
    if s.len() > 0 && !white_space(s[0]) && !white_space(s[s.len() - 1]) {
        assert(trim(s) =~= s);
    }
    if s.len() == 0 {
        assert(trim(s) =~= s);
    }
    if trim(s) == s && s.len() > 0 {
        assert(trim(s).len() == s.len());
        assert(start == 0);
        assert(end == s.len());
    }
}

/// Trimming twice is trimming once.
pub proof fn lemma_trim_idempotent(s: Seq<char>)
    ensures
        trim(trim(s)) == trim(s),
{
    lemma_skip_white_space_bounds(s, 0);
    let start = skip_white_space(s, 0);
    lemma_back_over_white_space_bounds(s, start, s.len() as int);
    let end = back_over_white_space(s, start, s.len() as int);
    let t = trim(s);
    if t.len() > 0 {
        assert(!white_space(t[0]));
        assert(!white_space(t[t.len() - 1]));
    }
    lemma_trim_shape(t);
}

proof fn lemma_skip_to(s: Seq<char>, i: int, a: int)
    requires
        0 <= i <= a <= s.len(),
        forall|x: int| i <= x < a ==> white_space(#[trigger] s[x]),
    ensures
        skip_white_space(s, i) == skip_white_space(s, a),
    decreases a - i,
{
    if i < a {
        lemma_skip_to(s, i + 1, a);
    }
}

proof fn lemma_back_to(s: Seq<char>, lo: int, j: int, b: int)
    requires
        0 <= lo <= b <= j <= s.len(),
        forall|x: int| b <= x < j ==> white_space(#[trigger] s[x]),
    ensures
        back_over_white_space(s, lo, j) == back_over_white_space(s, lo, b),
    decreases j - b,
{
    if b < j {
        lemma_back_to(s, lo, j - 1, b);
    }
}

/// `trim(s)` is the part of `s` between any `a` and `b` such that only white
/// space stands before `a` and from `b` on, and (if the part is not empty)
/// it starts and ends with a character that is not white space.
proof fn lemma_trim_is(s: Seq<char>, a: int, b: int)
    requires
        0 <= a <= b <= s.len(),
        forall|x: int| 0 <= x < a ==> white_space(#[trigger] s[x]),
        forall|x: int| b <= x < s.len() ==> white_space(#[trigger] s[x]),
        a < b ==> !white_space(s[a]) && !white_space(s[b - 1]),
    ensures
        trim(s) == s.subrange(a, b),
{
    if a < b {
        lemma_skip_to(s, 0, a);
        lemma_back_to(s, a, s.len() as int, b);
    } else {
        lemma_skip_to(s, 0, s.len() as int);
        assert(s.subrange(a, b) =~= Seq::<char>::empty());
        assert(s.subrange(s.len() as int, s.len() as int) =~= Seq::<char>::empty());
    }
}

/// The bounds of `trim(s)` within `s`.
proof fn lemma_trim_bounds(s: Seq<char>) -> (ab: (int, int))
    ensures
        0 <= ab.0 <= ab.1 <= s.len(),
        forall|x: int| 0 <= x < ab.0 ==> white_space(#[trigger] s[x]),
        forall|x: int| ab.1 <= x < s.len() ==> white_space(#[trigger] s[x]),
        ab.0 < ab.1 ==> !white_space(s[ab.0]) && !white_space(s[ab.1 - 1]),
        trim(s) == s.subrange(ab.0, ab.1),
{
    lemma_skip_white_space_bounds(s, 0);
    let a = skip_white_space(s, 0);
    lemma_back_over_white_space_bounds(s, a, s.len() as int);
    let b = back_over_white_space(s, a, s.len() as int);
    lemma_skip_prefix_white(s, 0);
    lemma_back_suffix_white(s, a, s.len() as int);
    if a == b && a < s.len() {
        assert(!white_space(s[a]));
        assert(false);
    }
    (a, b)
}

proof fn lemma_skip_prefix_white(s: Seq<char>, i: int)
    requires
        0 <= i <= s.len(),
    ensures
        forall|x: int| i <= x < skip_white_space(s, i) ==> white_space(#[trigger] s[x]),
    decreases s.len() - i,
{
    if i < s.len() && white_space(s[i]) {
        lemma_skip_prefix_white(s, i + 1);
    }
}

proof fn lemma_back_suffix_white(s: Seq<char>, lo: int, j: int)
    requires
        0 <= lo <= j <= s.len(),
    ensures
        forall|x: int| back_over_white_space(s, lo, j) <= x < j ==> white_space(#[trigger] s[x]),
    decreases j - lo,
{
    if lo < j && white_space(s[j - 1]) {
        lemma_back_suffix_white(s, lo, j - 1);
    }
}

/// Trimming removes every Unicode `White_Space` character at either end:
/// adding one in front of or behind `s` does not change `trim(s)`.
pub proof fn lemma_trim_strips_white_space(c: char, s: Seq<char>)
    requires
        ({
            let u = c as u32;
            ||| 0x09 <= u <= 0x0D
            ||| u == 0x20
            ||| u == 0x85
            ||| u == 0xA0
            ||| u == 0x1680
            ||| 0x2000 <= u <= 0x200A
            ||| u == 0x2028
            ||| u == 0x2029
            ||| u == 0x202F
            ||| u == 0x205F
            ||| u == 0x3000
        }),
    ensures
        trim(seq![c] + s) == trim(s),
        trim(s.push(c)) == trim(s),
{
    assert(white_space(c));
    let (a, b) = lemma_trim_bounds(s);
    let front = seq![c] + s;
    assert forall|x: int| 0 <= x < a + 1 implies white_space(#[trigger] front[x]) by {
        if x > 0 {
            assert(front[x] == s[x - 1]);
        }
    }
    assert forall|x: int| b + 1 <= x < front.len() implies white_space(#[trigger] front[x]) by {
        assert(front[x] == s[x - 1]);
    }
    if a < b {
        assert(front[a + 1] == s[a] && front[b] == s[b - 1]);
    }
    lemma_trim_is(front, a + 1, b + 1);
    assert(front.subrange(a + 1, b + 1) =~= s.subrange(a, b));
    let back = s.push(c);
    if a < b {
        assert forall|x: int| 0 <= x < a implies white_space(#[trigger] back[x]) by {
            assert(back[x] == s[x]);
        }
        assert forall|x: int| b <= x < back.len() implies white_space(#[trigger] back[x]) by {
            if x < s.len() {
                assert(back[x] == s[x]);
            }
        }
        assert(back[a] == s[a] && back[b - 1] == s[b - 1]);
        lemma_trim_is(back, a, b);
        assert(back.subrange(a, b) =~= s.subrange(a, b));
    } else {
        assert forall|x: int| 0 <= x < back.len() implies white_space(#[trigger] back[x]) by {
            if x < s.len() {
                assert(back[x] == s[x]);
                if x >= a {
                    assert(x >= b);
                }
            }
        }
        lemma_trim_is(back, back.len() as int, back.len() as int);
        assert(back.subrange(back.len() as int, back.len() as int) =~= s.subrange(a, b));
    }
}

/// Trimming keeps every other character at either end: a character that is
/// not Unicode `White_Space`, put in front of or behind `s`, starts or ends
/// the trimmed text.
pub proof fn lemma_trim_keeps_other(c: char, s: Seq<char>)
    requires
        !({
            let u = c as u32;
            ||| 0x09 <= u <= 0x0D
            ||| u == 0x20
            ||| u == 0x85
            ||| u == 0xA0
            ||| u == 0x1680
            ||| 0x2000 <= u <= 0x200A
            ||| u == 0x2028
            ||| u == 0x2029
            ||| u == 0x202F
            ||| u == 0x205F
            ||| u == 0x3000
        }),
    ensures
        trim(seq![c] + s).len() > 0,
        trim(seq![c] + s)[0] == c,
        trim(s.push(c)).len() > 0,
        trim(s.push(c)).last() == c,
{
    assert(!white_space(c));
    let front = seq![c] + s;
    let (a, b) = lemma_trim_bounds(front);
    assert(front[0] == c);
    assert(a == 0);
    if b == 0 {
        assert(white_space(front[0]));
    }
    let back = s.push(c);
    let (a2, b2) = lemma_trim_bounds(back);
    assert(back[back.len() - 1] == c);
    assert(b2 == back.len());
    if a2 == b2 {
        assert(white_space(back[back.len() - 1]));
    }
}

/// The characters of `s`, in order.
pub(crate) fn chars_of(s: &str) -> (v: Vec<char>)
    ensures
        v@ == s@,
{
    broadcast use vstd::string::group_string_axioms;
    let mut v: Vec<char> = Vec::new();
    for c in it: s.chars()
        invariant
            it.seq() == s@,
            v@ == it.seq().take(it.index()),
    {
        v.push(c);
        assert(v@ =~= it.seq().take(it.index() + 1));
    }
    assert(v@ =~= s@);
    v
}

/// `s` without its leading and trailing white space.
pub(crate) fn trim_str(s: &str) -> (t: String)
    ensures
        t@ == trim(s@),
{
    let v = chars_of(s);
    let n = v.len();
    let mut start: usize = 0;
    while start < n && is_whitespace(v[start])
        invariant
            v@ == s@,
            n == v@.len(),
            start <= n,
            skip_white_space(s@, start as int) == skip_white_space(s@, 0),
        decreases n - start,
    {
        start = start + 1;
    }
    let mut end: usize = n;
    while end > start && is_whitespace(v[end - 1])
        invariant
            v@ == s@,
            n == v@.len(),
            start <= end <= n,
            start == skip_white_space(s@, 0),
            back_over_white_space(s@, start as int, end as int) == back_over_white_space(
                s@,
                start as int,
                n as int,
            ),
        decreases end - start,
    {
        end = end - 1;
    }
    String::from_str(s.substring_char(start, end))
}

/// The text that `{:?}` formatting gives for the string `s`: quoted, with
/// special characters escaped.
pub uninterp spec fn debug_str(s: Seq<char>) -> Seq<char>;

/// The text that `{:?}` formatting gives for the character `c`: quoted,
/// with special characters escaped.
pub uninterp spec fn debug_char(c: char) -> Seq<char>;

/// `<str as Debug>::fmt` through `format!`: claimed to return
/// `debug_str(s@)`, a function of `s` alone.
#[verifier::external_body]
pub(crate) fn debug_quoted_str(s: &str) -> (r: String)
    ensures
        r@ == debug_str(s@),
{
    format!("{:?}", s)
}

/// `<char as Debug>::fmt` through `format!`: claimed to return
/// `debug_char(c)`, a function of `c` alone.
#[verifier::external_body]
pub(crate) fn debug_quoted_char(c: char) -> (r: String)
    ensures
        r@ == debug_char(c),
{
    format!("{:?}", c)
}

/// The decimal digit for `d < 10`.
pub open spec fn digit(d: nat) -> char {
    if d == 0 {
        '0'
    } else if d == 1 {
        '1'
    } else if d == 2 {
        '2'
    } else if d == 3 {
        '3'
    } else if d == 4 {
        '4'
    } else if d == 5 {
        '5'
    } else if d == 6 {
        '6'
    } else if d == 7 {
        '7'
    } else if d == 8 {
        '8'
    } else {
        '9'
    }
}

/// `n` written in decimal, without leading zeros.
pub open spec fn decimal(n: nat) -> Seq<char>
    decreases n,
{
    if n < 10 {
        seq![digit(n)]
    } else {
        decimal(n / 10).push(digit(n % 10))
    }
}

fn digit_char(d: usize) -> (c: char)
    requires
        d < 10,
    ensures
        c == digit(d as nat),
{
    if d == 0 {
        '0'
    } else if d == 1 {
        '1'
    } else if d == 2 {
        '2'
    } else if d == 3 {
        '3'
    } else if d == 4 {
        '4'
    } else if d == 5 {
        '5'
    } else if d == 6 {
        '6'
    } else if d == 7 {
        '7'
    } else if d == 8 {
        '8'
    } else {
        '9'
    }
}

/// Appends `n` in decimal to `out`.
pub(crate) fn push_decimal(out: &mut String, n: usize)
    ensures
        final(out)@ == old(out)@ + decimal(n as nat),
    decreases n,
{
    if n >= 10 {
        push_decimal(out, n / 10);
    }
    push_char(out, digit_char(n % 10));
    assert(out@ =~= old(out)@ + decimal(n as nat));
}

} // verus!
