//! Character-level helpers: conversions between strings and character
//! vectors, whitespace trimming, line splitting and decimal formatting.
use vstd::prelude::*;

verus! {

/// Whether `c` is alphabetic or numeric, as `char::is_alphanumeric` decides.
pub uninterp spec fn unicode_alphanumeric(c: char) -> bool;

/// Whether `c` is an ASCII letter or digit.
pub open spec fn ascii_alphanumeric(c: char) -> bool {
    ('a' <= c && c <= 'z') || ('A' <= c && c <= 'Z') || ('0' <= c && c <= '9')
}

/// Whether `c` has the Unicode `White_Space` property (`char::is_whitespace`):
/// tab to carriage return, space, next line, no-break space, ogham space
/// mark, en quad to hair space, line and paragraph separators, narrow
/// no-break space, medium mathematical space and ideographic space.
pub open spec fn white_space(c: char) -> bool {
    let u = c as u32;
    ||| 0x09 <= u <= 0x0D
    ||| u == 0x20 || u == 0x85 || u == 0xA0 || u == 0x1680
    ||| 0x2000 <= u <= 0x200A
    ||| u == 0x2028 || u == 0x2029 || u == 0x202F || u == 0x205F || u == 0x3000
}

/// Whether `c` is alphanumeric (`char::is_alphanumeric`): for ASCII
/// characters the rule is written out, for the others it is
/// `unicode_alphanumeric`.
pub open spec fn alphanumeric(c: char) -> bool {
    if (c as u32) < 128 {
        ascii_alphanumeric(c)
    } else {
        unicode_alphanumeric(c)
    }
}

/// Calls `char::is_whitespace`, which answers whether `c` has the `White_Space`
/// property of the Unicode Character Database (`PropList.txt`); the contract
/// lists the characters that have it.
#[verifier::external_body]
pub(crate) fn is_whitespace(c: char) -> (r: bool)
    ensures
        r == white_space(c),
{
    c.is_whitespace()
}

/// Calls `char::is_alphanumeric`, which answers whether `c` is alphabetic or
/// numeric in Unicode. The contract states the answer for ASCII characters
/// (the letters and the digits); for the others it only ties the answer to
/// `c` through `unicode_alphanumeric`.
#[verifier::external_body]
pub(crate) fn is_alphanumeric(c: char) -> (r: bool)
    ensures
        r == unicode_alphanumeric(c),
        (c as u32) < 128 ==> (r <==> ascii_alphanumeric(c)),
{
    c.is_alphanumeric()
}

/// Collects the characters of `v` into a `String` (std's `FromIterator<&char>`
/// for `String`); the string holds exactly those characters, in order.
#[verifier::external_body]
pub(crate) fn string_of(v: &Vec<char>) -> (s: String)
    ensures
        s@ == v@,
{
    v.iter().collect()
}

/// Copies the characters of `s` into a vector, in order.
pub fn chars_of(s: &str) -> (v: Vec<char>)
    ensures
        v@ == s@,
{
    let mut v: Vec<char> = Vec::new();
    for c in it: s.chars()
        invariant
            v@ == it.seq().take(it.index() as int),
    {
        v.push(c);
    }
    v
}

/// Appends the characters of `s` to `out`.
pub fn push_str(out: &mut Vec<char>, s: &str)
    ensures
        final(out)@ == old(out)@ + s@,
{
    for c in it: s.chars()
        invariant
            out@ == old(out)@ + it.seq().take(it.index() as int),
    {
        out.push(c);
    }
}

/// Appends the characters of `s` to `out`.
pub fn push_chars(out: &mut Vec<char>, s: &Vec<char>)
    ensures
        final(out)@ == old(out)@ + s@,
{
    let n = s.len();
    for i in 0..n
        invariant
            n == s.len(),
            out@ == old(out)@ + s@.take(i as int),
    {
        proof {
            assert(s@.take(i + 1) == s@.take(i as int).push(s@[i as int]));
        }
        out.push(s[i]);
    }
    proof {
        assert(s@.take(n as int) == s@);
    }
}

/// The characters `s[lo..hi]` as a new vector.
pub fn sub_chars(s: &Vec<char>, lo: usize, hi: usize) -> (r: Vec<char>)
    requires
        lo <= hi <= s.len(),
    ensures
        r@ == s@.subrange(lo as int, hi as int),
{
    let mut r: Vec<char> = Vec::new();
    for i in lo..hi
        invariant
            lo <= hi <= s.len(),
            r@ == s@.subrange(lo as int, i as int),
    {
        proof {
            assert(s@.subrange(lo as int, i + 1) == s@.subrange(lo as int, i as int).push(
                s@[i as int],
            ));
        }
        r.push(s[i]);
    }
    r
}

/// `s` without its trailing whitespace (std's `str::trim_end`).
pub open spec fn trim_end_spec(s: Seq<char>) -> Seq<char>
    decreases s.len(),
{
    if s.len() > 0 && white_space(s.last()) {
        trim_end_spec(s.drop_last())
    } else {
        s
    }
}

/// `s` without its leading whitespace (std's `str::trim_start`).
pub open spec fn trim_start_spec(s: Seq<char>) -> Seq<char>
    decreases s.len(),
{
    if s.len() > 0 && white_space(s[0]) {
        trim_start_spec(s.drop_first())
    } else {
        s
    }
}

/// `s` without leading and trailing whitespace (std's `str::trim`).
pub open spec fn trim_spec(s: Seq<char>) -> Seq<char> {
    trim_start_spec(trim_end_spec(s))
}

/// The end of `s[..end]` once its trailing whitespace is cut off.
pub fn trim_end_bound(s: &Vec<char>, end: usize) -> (k: usize)
    requires
        end <= s.len(),
    ensures
        k <= end,
        s@.take(k as int) == trim_end_spec(s@.take(end as int)),
{
    let mut k = end;
    loop
        invariant
            k <= end <= s.len(),
            trim_end_spec(s@.take(k as int)) == trim_end_spec(s@.take(end as int)),
        ensures
            k <= end,
            s@.take(k as int) == trim_end_spec(s@.take(end as int)),
        decreases k,
    {
        if k == 0 {
            assert(s@.take(0) =~= Seq::<char>::empty());
            break;
        }
        if !is_whitespace(s[k - 1]) {
            assert(s@.take(k as int).last() == s@[k - 1]);
            break;
        }
        proof {
            assert(s@.take(k as int).drop_last() == s@.take(k - 1));
        }
        k -= 1;
    }
    k
}

/// The start of `s[lo..hi]` once its leading whitespace is cut off.
pub fn trim_start_bound(s: &Vec<char>, lo: usize, hi: usize) -> (k: usize)
    requires
        lo <= hi <= s.len(),
    ensures
        lo <= k <= hi,
        s@.subrange(k as int, hi as int) == trim_start_spec(s@.subrange(lo as int, hi as int)),
{
    let mut k = lo;
    loop
        invariant
            lo <= k <= hi <= s.len(),
            trim_start_spec(s@.subrange(k as int, hi as int)) == trim_start_spec(
                s@.subrange(lo as int, hi as int),
            ),
        ensures
            lo <= k <= hi,
            s@.subrange(k as int, hi as int) == trim_start_spec(
                s@.subrange(lo as int, hi as int),
            ),
        decreases hi - k,
    {
        if k == hi {
            assert(s@.subrange(k as int, hi as int) =~= Seq::<char>::empty());
            break;
        }
        if !is_whitespace(s[k]) {
            assert(s@.subrange(k as int, hi as int)[0] == s@[k as int]);
            break;
        }
        proof {
            assert(s@.subrange(k as int, hi as int).drop_first() == s@.subrange(
                k + 1,
                hi as int,
            ));
        }
        k += 1;
    }
    k
}

/// `s` with leading and trailing whitespace removed.
pub fn trim(s: &Vec<char>) -> (r: Vec<char>)
    ensures
        r@ == trim_spec(s@),
{
    let hi = trim_end_bound(s, s.len());
    let lo = trim_start_bound(s, 0, hi);
    proof {
        assert(s@.take(s.len() as int) == s@);
        assert(s@.subrange(0, hi as int) == s@.take(hi as int));
    }
    sub_chars(s, lo, hi)
}

/// Index of the first `c` at or after `from` in `s`, or `s.len()` when none follows.
pub open spec fn find_from(s: Seq<char>, c: char, from: int) -> int
    decreases s.len() - from,
{
    if from >= s.len() {
        s.len() as int
    } else if s[from] == c {
        from
    } else {
        find_from(s, c, from + 1)
    }
}

/// Facts about `find_from`: where it lands and that nothing before it matches.
pub proof fn lemma_find_from(s: Seq<char>, c: char, from: int)
    requires
        0 <= from <= s.len(),
    ensures
        from <= find_from(s, c, from) <= s.len(),
        find_from(s, c, from) < s.len() ==> s[find_from(s, c, from)] == c,
        forall|j: int| from <= j < find_from(s, c, from) ==> s[j] != c,
    decreases s.len() - from,
{
    if from < s.len() && s[from] != c {
        lemma_find_from(s, c, from + 1);
    }
}

/// Index of the first `c` at or after `from`, or `s.len()`.
pub fn find_char(s: &Vec<char>, c: char, from: usize) -> (k: usize)
    requires
        from <= s.len(),
    ensures
        k == find_from(s@, c, from as int),
{
    let mut k = from;
    while k < s.len() && s[k] != c
        invariant
            from <= k <= s.len(),
            find_from(s@, c, k as int) == find_from(s@, c, from as int),
        decreases s.len() - k,
    {
        k += 1;
    }
    k
}

/// The lines of `s[from..]` as std's `str::lines` yields them: split after
/// each `\n`, the `\n` (and a `\r` right before it) removed, and no empty
/// line after a final `\n`.
pub open spec fn lines_from(s: Seq<char>, from: int) -> Seq<Seq<char>>
    decreases s.len() - from,
{
    if from < 0 || from >= s.len() {
        seq![]
    } else {
        proof {
            lemma_find_from(s, '\n', from);
        }
        let k = find_from(s, '\n', from);
        let raw = s.subrange(from, k);
        let line = if k < s.len() && raw.len() > 0 && raw.last() == '\r' {
            raw.drop_last()
        } else {
            raw
        };
        if k < s.len() {
            seq![line] + lines_from(s, k + 1)
        } else {
            seq![line]
        }
    }
}

/// The lines of `s`, as std's `str::lines` yields them.
pub open spec fn lines_spec(s: Seq<char>) -> Seq<Seq<char>> {
    lines_from(s, 0)
}

/// Decimal digit `d` as a character.
pub open spec fn digit_char(d: int) -> char {
    if d == 0 {
        '0'
    } else if d == 1 {
        '1'
    } else if d == 2 {
        '2'
    } else if d == 3 {
        '3'
    } else if d == 4 {
        '4'
    } else if d == 5 {
        '5'
    } else if d == 6 {
        '6'
    } else if d == 7 {
        '7'
    } else if d == 8 {
        '8'
    } else {
        '9'
    }
}

/// The decimal representation of `n`, as `{}` formats an unsigned integer.
pub open spec fn decimal(n: nat) -> Seq<char>
    decreases n,
{
    if n < 10 {
        seq![digit_char(n as int)]
    } else {
        decimal(n / 10).push(digit_char((n % 10) as int))
    }
}

fn digit(d: usize) -> (c: char)
    requires
        d < 10,
    ensures
        c == digit_char(d as int),
{
    match d {
        0 => '0',
        1 => '1',
        2 => '2',
        3 => '3',
        4 => '4',
        5 => '5',
        6 => '6',
        7 => '7',
        8 => '8',
        _ => '9',
    }
}

/// Appends the decimal representation of `n` to `out`.
pub fn push_decimal(out: &mut Vec<char>, n: usize)
    ensures
        final(out)@ == old(out)@ + decimal(n as nat),
    decreases n,
{
    if n >= 10 {
        push_decimal(out, n / 10);
    }
    out.push(digit(n % 10));
}

} // verus!
