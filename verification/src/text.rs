//! Character-level helpers shared by the parser and the session logic.

use vstd::prelude::*;
use vstd::utf8::{valid_utf8, decode_utf8};

verus! {

broadcast use vstd::string::group_string_axioms;

/// `String::push` appends one character at the end of the string.
pub assume_specification[ String::push ](s: &mut String, ch: char)
    ensures
        final(s)@ == old(s)@.push(ch),
;

/// The characters of a string slice, in order.
pub fn chars_of(s: &str) -> (res: Vec<char>)
    ensures
        res@ == s@,
{
    let mut res: Vec<char> = Vec::new();
    for c in it: s.chars()
        invariant
            res@ == it.seq().take(it.index() as int),
            it.seq() == s@,
    {
        res.push(c);
        assert(res@ =~= it.seq().take(it.index() as int + 1));
    }
    assert(res@ =~= s@);
    res
}

} // verus!

verus! {

/// A new string holding the characters `v[a..b]`.
pub fn string_from_range(v: &Vec<char>, a: usize, b: usize) -> (res: String)
    requires
        a <= b <= v@.len(),
    ensures
        res@ == v@.subrange(a as int, b as int),
{
    let mut s = String::new();
    let mut k = a;
    while k < b
        invariant
            a <= k <= b,
            b <= v@.len(),
            s@ == v@.subrange(a as int, k as int),
        decreases b - k,
    {
        s.push(v[k]);
        k += 1;
        assert(s@ =~= v@.subrange(a as int, k as int));
    }
    s
}

/// A new vector holding the characters `v[a..b]`.
pub fn chars_in_range(v: &Vec<char>, a: usize, b: usize) -> (res: Vec<char>)
    requires
        a <= b <= v@.len(),
    ensures
        res@ == v@.subrange(a as int, b as int),
{
    let mut r: Vec<char> = Vec::new();
    let mut k = a;
    while k < b
        invariant
            a <= k <= b,
            b <= v@.len(),
            r@ == v@.subrange(a as int, k as int),
        decreases b - k,
    {
        r.push(v[k]);
        k += 1;
        assert(r@ =~= v@.subrange(a as int, k as int));
    }
    r
}

/// The first index `k >= i` with `s[k] == c`, or `s.len()` if there is none.
pub open spec fn find_char(s: Seq<char>, i: int, c: char) -> int
    decreases s.len() - i,
{
    if 0 <= i < s.len() && s[i] != c {
        find_char(s, i + 1, c)
    } else {
        i
    }
}

/// The first index `k >= i` with `s[k] != ' '`, or `s.len()` if there is none.
pub open spec fn skip_spaces(s: Seq<char>, i: int) -> int
    decreases s.len() - i,
{
    if 0 <= i < s.len() && s[i] == ' ' {
        skip_spaces(s, i + 1)
    } else {
        i
    }
}

pub proof fn lemma_find_char(s: Seq<char>, i: int, c: char)
    requires
        0 <= i <= s.len(),
    ensures
        i <= find_char(s, i, c) <= s.len(),
        find_char(s, i, c) < s.len() ==> s[find_char(s, i, c)] == c,
        forall|k: int| i <= k < find_char(s, i, c) ==> s[k] != c,
    decreases s.len() - i,
{
    if i < s.len() && s[i] != c {
        lemma_find_char(s, i + 1, c);
    }
}

pub proof fn lemma_skip_spaces(s: Seq<char>, i: int)
    requires
        0 <= i <= s.len(),
    ensures
        i <= skip_spaces(s, i) <= s.len(),
        skip_spaces(s, i) < s.len() ==> s[skip_spaces(s, i)] != ' ',
        forall|k: int| i <= k < skip_spaces(s, i) ==> s[k] == ' ',
    decreases s.len() - i,
{
    if i < s.len() && s[i] == ' ' {
        lemma_skip_spaces(s, i + 1);
    }
}

/// Executable form of [`find_char`].
pub fn find_char_from(v: &Vec<char>, i: usize, c: char) -> (k: usize)
    requires
        i <= v@.len(),
    ensures
        k == find_char(v@, i as int, c),
        i <= k <= v@.len(),
{
    let mut k = i;
    while k < v.len() && v[k] != c
        invariant
            i <= k <= v@.len(),
            find_char(v@, k as int, c) == find_char(v@, i as int, c),
        decreases v@.len() - k,
    {
        k += 1;
    }
    k
}

/// Executable form of [`skip_spaces`].
pub fn skip_spaces_from(v: &Vec<char>, i: usize) -> (k: usize)
    requires
        i <= v@.len(),
    ensures
        k == skip_spaces(v@, i as int),
        i <= k <= v@.len(),
{
    let mut k = i;
    while k < v.len() && v[k] == ' '
        invariant
            i <= k <= v@.len(),
            skip_spaces(v@, k as int) == skip_spaces(v@, i as int),
        decreases v@.len() - k,
    {
        k += 1;
    }
    k
}

} // verus!

verus! {

/// What `String::from_utf8_lossy` makes of a byte sequence.
pub uninterp spec fn utf8_lossy(bytes: Seq<u8>) -> Seq<char>;

/// Calls `String::from_utf8_lossy`. Its result is named [`utf8_lossy`]; beyond that, as its
/// documentation states, bytes that are valid UTF-8 are decoded unchanged and only invalid
/// sequences change, each into U+FFFD. So the text is empty only for empty bytes, and it
/// holds a CR or LF only where those bytes were. Which replacement characters come out for
/// which invalid sequences is left to the name.
#[verifier::external_body]
pub(crate) fn from_utf8_lossy(bytes: &[u8]) -> (res: String)
    ensures
        res@ == utf8_lossy(bytes@),
        valid_utf8(bytes@) ==> res@ == decode_utf8(bytes@),
        res@.len() == 0 <==> bytes@.len() == 0,
        !bytes@.contains(13u8) ==> !res@.contains('\r'),
        !bytes@.contains(10u8) ==> !res@.contains('\n'),
{
    String::from_utf8_lossy(bytes).into_owned()
}

/// Calls `String::from_utf8`, which takes the bytes when they are valid UTF-8 and refuses
/// them otherwise; the refusal is reported as `None`.
#[verifier::external_body]
pub(crate) fn string_from_utf8(bytes: Vec<u8>) -> (res: Option<String>)
    ensures
        res is Some <==> valid_utf8(bytes@),
        res matches Some(s) ==> s@ == decode_utf8(bytes@),
{
    String::from_utf8(bytes).ok()
}

/// What `str::to_lowercase` makes of a string (full Unicode lowercase mapping).
pub uninterp spec fn lowercase(s: Seq<char>) -> Seq<char>;

/// Calls `str::to_lowercase`; its result is named [`lowercase`].
#[verifier::external_body]
pub(crate) fn to_lowercase(s: &str) -> (res: String)
    ensures
        res@ == lowercase(s@),
{
    s.to_lowercase()
}

/// `char::is_whitespace`: the Unicode `White_Space` property.
pub open spec fn is_whitespace(c: char) -> bool {
    ('\u{9}' <= c && c <= '\u{d}') || c == ' ' || c == '\u{85}' || c == '\u{a0}' || c == '\u{1680}'
        || ('\u{2000}' <= c && c <= '\u{200a}') || c == '\u{2028}' || c == '\u{2029}' || c
        == '\u{202f}' || c == '\u{205f}' || c == '\u{3000}'
}

/// Executable form of [`is_whitespace`].
pub fn is_whitespace_char(c: char) -> (res: bool)
    ensures
        res == is_whitespace(c),
{
    ('\u{9}' <= c && c <= '\u{d}') || c == ' ' || c == '\u{85}' || c == '\u{a0}' || c == '\u{1680}'
        || ('\u{2000}' <= c && c <= '\u{200a}') || c == '\u{2028}' || c == '\u{2029}' || c
        == '\u{202f}' || c == '\u{205f}' || c == '\u{3000}'
}

/// The first index `k >= i` whose character is (when `ws`) or is not (when `!ws`)
/// whitespace, or `s.len()`.
pub open spec fn find_ws(s: Seq<char>, i: int, ws: bool) -> int
    decreases s.len() - i,
{
    if 0 <= i < s.len() && is_whitespace(s[i]) != ws {
        find_ws(s, i + 1, ws)
    } else {
        i
    }
}

pub proof fn lemma_find_ws(s: Seq<char>, i: int, ws: bool)
    requires
        0 <= i <= s.len(),
    ensures
        i <= find_ws(s, i, ws) <= s.len(),
        find_ws(s, i, ws) < s.len() ==> is_whitespace(s[find_ws(s, i, ws)]) == ws,
        forall|k: int| i <= k < find_ws(s, i, ws) ==> is_whitespace(s[k]) != ws,
    decreases s.len() - i,
{
    if i < s.len() && is_whitespace(s[i]) != ws {
        lemma_find_ws(s, i + 1, ws);
    }
}

/// The whitespace-separated words of `s` from index `i` on.
pub open spec fn words_from(s: Seq<char>, i: int) -> Seq<Seq<char>>
    decreases s.len() - i,
{
    if 0 <= i <= s.len() {
        let j = find_ws(s, i, false);
        if j >= s.len() {
            Seq::empty()
        } else {
            let e = find_ws(s, j, true);
            proof {
                lemma_find_ws(s, i, false);
                lemma_find_ws(s, j, true);
            }
            seq![s.subrange(j, e)] + words_from(s, e)
        }
    } else {
        Seq::empty()
    }
}

/// The words of `s`, as `str::split_whitespace` yields them.
pub open spec fn words(s: Seq<char>) -> Seq<Seq<char>> {
    words_from(s, 0)
}

fn find_ws_from(v: &Vec<char>, i: usize, ws: bool) -> (k: usize)
    requires
        i <= v@.len(),
    ensures
        k == find_ws(v@, i as int, ws),
        i <= k <= v@.len(),
{
    let mut k = i;
    while k < v.len() && is_whitespace_char(v[k]) != ws
        invariant
            i <= k <= v@.len(),
            find_ws(v@, k as int, ws) == find_ws(v@, i as int, ws),
        decreases v@.len() - k,
    {
        k += 1;
    }
    k
}

/// Splits `s` into its whitespace-separated words.
pub fn split_whitespace(s: &str) -> (res: Vec<String>)
    ensures
        res.deep_view() == words(s@),
{
    let v = chars_of(s);
    let ghost sv = v@;
    let mut res: Vec<String> = Vec::new();
    let mut i: usize = 0;
    assert(res.deep_view() =~= Seq::<Seq<char>>::empty());
    loop
        invariant
            i <= v@.len(),
            sv == v@,
            sv == s@,
            words(sv) == res.deep_view() + words_from(sv, i as int),
        decreases v@.len() - i,
    {
        let j = find_ws_from(&v, i, false);
        proof {
            lemma_find_ws(sv, i as int, false);
        }
        if j >= v.len() {
            assert(res.deep_view() + Seq::<Seq<char>>::empty() =~= res.deep_view());
            return res;
        }
        let e = find_ws_from(&v, j, true);
        proof {
            lemma_find_ws(sv, j as int, true);
        }
        let w = string_from_range(&v, j, e);
        let ghost old_r = res.deep_view();
        res.push(w);
        proof {
            assert(res.deep_view() =~= old_r.push(w@));
            assert(old_r + (seq![w@] + words_from(sv, e as int)) =~= res.deep_view() + words_from(
                sv,
                e as int,
            ));
        }
        i = e;
    }
}

/// Whether two character vectors hold the same characters.
pub fn same_chars(a: &Vec<char>, b: &Vec<char>) -> (res: bool)
    ensures
        res == (a@ == b@),
{
    if a.len() != b.len() {
        return false;
    }
    let mut k: usize = 0;
    while k < a.len()
        invariant
            k <= a@.len(),
            a@.len() == b@.len(),
            forall|i: int| 0 <= i < k ==> a@[i] == b@[i],
        decreases a@.len() - k,
    {
        if a[k] != b[k] {
            return false;
        }
        k += 1;
    }
    assert(a@ =~= b@);
    true
}

} // verus!
