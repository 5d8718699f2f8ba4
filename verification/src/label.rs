//! Typst label literals (`<name>`).
use vstd::prelude::*;

use crate::text::{
    ascii_alphanumeric, chars_of, find_char, find_from, lemma_find_from, sub_chars, trim, trim_end_spec,
    trim_spec, trim_start_spec, white_space,
};

verus! {

/// Whether `id` may stand between `<` and `>` in a Typst label literal, as
/// `typst_syntax::is_valid_label_literal_id` decides.
pub uninterp spec fn typst_label_id_valid(id: Seq<char>) -> bool;

/// Whether `c` is an ASCII character that may stand in a label name: a
/// letter, a digit, `_`, `-`, `:` or `.`.
pub open spec fn ascii_label_char(c: char) -> bool {
    ascii_alphanumeric(c) || c == '_' || c == '-' || c == ':' || c == '.'
}

/// Whether every ASCII character of `id` may stand in a label name.
pub open spec fn ascii_label_chars(id: Seq<char>) -> bool {
    forall|k: int| 0 <= k < id.len() && (id[k] as u32) < 128 ==> ascii_label_char(#[trigger] id[k])
}

/// Whether every character of `id` is ASCII.
pub open spec fn all_ascii(id: Seq<char>) -> bool {
    forall|k: int| 0 <= k < id.len() ==> (#[trigger] id[k] as u32) < 128
}

/// Whether `id` is a valid label name. A name of ASCII characters is valid
/// when it is not empty and holds only letters, digits, `_`, `-`, `:` and
/// `.`; for other names it is Typst's answer, beside which the rule for the
/// name's ASCII characters is written out.
pub open spec fn label_id_valid(id: Seq<char>) -> bool {
    if all_ascii(id) {
        id.len() > 0 && ascii_label_chars(id)
    } else {
        typst_label_id_valid(id) && ascii_label_chars(id)
    }
}

/// Calls `typst_syntax::is_valid_label_literal_id` on the characters of `id`.
/// That function accepts a non-empty name whose characters all continue a
/// Unicode identifier (`unicode_ident::is_xid_continue`) or are `_`, `-`, `:`
/// or `.`. Among ASCII characters that leaves the letters, the digits and those
/// four, which the contract states; for other characters it ties the answer to
/// the name through `typst_label_id_valid` only.
#[verifier::external_body]
fn label_id_is_valid(id: &Vec<char>) -> (r: bool)
    ensures
        r == typst_label_id_valid(id@),
        r ==> id@.len() > 0 && ascii_label_chars(id@),
        all_ascii(id@) ==> (r <==> (id@.len() > 0 && ascii_label_chars(id@))),
{
    let s: String = id.iter().collect();
    typst_syntax::is_valid_label_literal_id(&s)
}

/// Length of the label literal that `s` starts with: `<`, a valid name up to
/// the first `>`, and that `>`. `None` when `s` does not start with one.
pub open spec fn label_end_spec(s: Seq<char>) -> Option<int> {
    if s.len() > 0 && s[0] == '<' {
        let k = find_from(s, '>', 1);
        if k < s.len() && label_id_valid(s.subrange(1, k)) {
            Some(k + 1)
        } else {
            None
        }
    } else {
        None
    }
}

/// Whether `s`, leading and trailing whitespace aside, is exactly one label literal.
pub open spec fn is_label_only_spec(s: Seq<char>) -> bool {
    let t = trim_spec(s);
    label_end_spec(t) == Some(t.len() as int)
}

/// Typst label literals.
pub struct TypstLabel;

impl TypstLabel {
    /// Length of the label literal that starts at `s[start]`, if one does.
    pub fn end(s: &Vec<char>, start: usize) -> (r: Option<usize>)
        requires
            start <= s.len(),
        ensures
            r matches Some(n) ==> label_end_spec(s@.skip(start as int)) == Some(n as int),
            r is None ==> label_end_spec(s@.skip(start as int)) is None,
    {
        let ghost t = s@.skip(start as int);
        if start >= s.len() || s[start] != '<' {
            return None;
        }
        let k = find_char(s, '>', start + 1);
        proof {
            lemma_find_from(s@, '>', start + 1);
            lemma_find_shift(s@, '>', start as int, 1);
        }
        if k >= s.len() {
            return None;
        }
        let id = sub_chars(s, start + 1, k);
        proof {
            assert(id@ == t.subrange(1, k - start));
        }
        if label_id_is_valid(&id) {
            Some(k - start + 1)
        } else {
            None
        }
    }

    /// Whether `text` is nothing but one label literal, surrounding whitespace aside.
    pub fn is_only(text: &str) -> (r: bool)
        ensures
            r == is_label_only_spec(text@),
    {
        let chars = chars_of(text);
        let t = trim(&chars);
        proof {
            assert(t@.skip(0) == t@);
        }
        match TypstLabel::end(&t, 0) {
            Some(n) => n == t.len(),
            None => false,
        }
    }
}

/// Searching `s` from `start + from` is searching `s.skip(start)` from `from`.
pub proof fn lemma_find_shift(s: Seq<char>, c: char, start: int, from: int)
    requires
        0 <= start <= s.len(),
        0 <= from,
    ensures
        find_from(s, c, start + from) == start + find_from(s.skip(start), c, from),
    decreases s.len() - start - from,
{
    if start + from < s.len() && s[start + from] != c {
        lemma_find_shift(s, c, start, from + 1);
    }
}

/// Whether `c` is none of `\`, `[` and `]`.
pub open spec fn bracket_free_char(c: char) -> bool {
    c != '\\' && c != '[' && c != ']'
}

/// A whitespace character is none of `\`, `[` and `]`.
proof fn lemma_white_space_bracket_free(c: char)
    requires
        white_space(c),
    ensures
        bracket_free_char(c),
{
    assert(('\\' as u32) == 92 && ('[' as u32) == 91 && (']' as u32) == 93);
}

/// Whitespace cut from the end of `s` holds no backslash or bracket.
proof fn lemma_trim_end_bracket_free(s: Seq<char>)
    requires
        forall|k: int|
            0 <= k < trim_end_spec(s).len() ==> bracket_free_char(#[trigger] trim_end_spec(s)[k]),
    ensures
        forall|k: int| 0 <= k < s.len() ==> bracket_free_char(#[trigger] s[k]),
    decreases s.len(),
{
    if s.len() > 0 && white_space(s.last()) {
        let d = s.drop_last();
        assert(trim_end_spec(s) == trim_end_spec(d));
        lemma_trim_end_bracket_free(d);
        lemma_white_space_bracket_free(s.last());
        assert forall|k: int| 0 <= k < s.len() implies bracket_free_char(#[trigger] s[k]) by {
            if k < d.len() {
                assert(s[k] == d[k]);
            }
        }
    } else {
        assert(trim_end_spec(s) == s);
    }
}

/// Whitespace cut from the start of `s` holds no backslash or bracket.
proof fn lemma_trim_start_bracket_free(s: Seq<char>)
    requires
        forall|k: int|
            0 <= k < trim_start_spec(s).len() ==> bracket_free_char(
                #[trigger] trim_start_spec(s)[k],
            ),
    ensures
        forall|k: int| 0 <= k < s.len() ==> bracket_free_char(#[trigger] s[k]),
    decreases s.len(),
{
    if s.len() > 0 && white_space(s[0]) {
        let d = s.drop_first();
        assert(trim_start_spec(s) == trim_start_spec(d));
        lemma_trim_start_bracket_free(d);
        lemma_white_space_bracket_free(s[0]);
        assert forall|k: int| 0 <= k < s.len() implies bracket_free_char(#[trigger] s[k]) by {
            if k > 0 {
                assert(s[k] == d[k - 1]);
            }
        }
    } else {
        assert(trim_start_spec(s) == s);
    }
}

/// A text that is nothing but one label literal, whitespace around it aside,
/// holds no backslash and no bracket.
pub proof fn lemma_label_only_bracket_free(t: Seq<char>)
    requires
        is_label_only_spec(t),
    ensures
        forall|k: int| 0 <= k < t.len() ==> bracket_free_char(#[trigger] t[k]),
{
    let u = trim_end_spec(t);
    let v = trim_start_spec(u);
    let k = find_from(v, '>', 1);
    lemma_find_from(v, '>', 1);
    let id = v.subrange(1, k);
    assert forall|j: int| 0 <= j < v.len() implies bracket_free_char(#[trigger] v[j]) by {
        if 1 <= j < k {
            assert(v[j] == id[j - 1]);
            if (id[j - 1] as u32) < 128 {
                assert(ascii_label_char(id[j - 1]));
            }
        }
    }
    lemma_trim_start_bracket_free(u);
    lemma_trim_end_bracket_free(t);
}

} // verus!
