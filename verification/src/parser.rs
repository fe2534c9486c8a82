//! Parsing of IRC protocol messages and of their message tags
//! (IRCv3 message-tags), including the tag-value escaping rules.

use vstd::prelude::*;
use crate::text::{chars_of, find_char, skip_spaces, lemma_find_char, lemma_skip_spaces, find_char_from, skip_spaces_from, string_from_range, chars_in_range};

verus! {

broadcast use vstd::string::group_string_axioms;

// ---------------------------------------------------------------------------
// Tag value escaping
// ---------------------------------------------------------------------------

/// How one character is written inside an escaped tag value.
pub open spec fn escape_char(c: char) -> Seq<char> {
    if c == ';' {
        seq!['\\', ':']
    } else if c == ' ' {
        seq!['\\', 's']
    } else if c == '\\' {
        seq!['\\', '\\']
    } else if c == '\r' {
        seq!['\\', 'r']
    } else if c == '\n' {
        seq!['\\', 'n']
    } else {
        seq![c]
    }
}

/// The escaped form of a tag value: every character replaced by [`escape_char`].
pub open spec fn escape_spec(s: Seq<char>) -> Seq<char>
    decreases s.len(),
{
    if s.len() == 0 {
        seq![]
    } else {
        escape_char(s[0]) + escape_spec(s.drop_first())
    }
}

/// What the two characters `\` `c` stand for in an escaped tag value.
/// An unknown escape keeps both characters.
pub open spec fn unescape_pair(c: char) -> Seq<char> {
    if c == ':' {
        seq![';']
    } else if c == 's' {
        seq![' ']
    } else if c == '\\' {
        seq!['\\']
    } else if c == 'r' {
        seq!['\r']
    } else if c == 'n' {
        seq!['\n']
    } else {
        seq!['\\', c]
    }
}

/// The unescaped form of a tag value. A lone `\` at the end is dropped.
pub open spec fn unescape_spec(s: Seq<char>) -> Seq<char>
    decreases s.len(),
{
    if s.len() == 0 {
        seq![]
    } else if s[0] == '\\' {
        if s.len() == 1 {
            seq![]
        } else {
            unescape_pair(s[1]) + unescape_spec(s.skip(2))
        }
    } else {
        seq![s[0]] + unescape_spec(s.drop_first())
    }
}

fn push_escaped(out: &mut String, c: char)
    ensures
        final(out)@ == old(out)@ + escape_char(c),
{
    if c == ';' {
        out.push('\\');
        out.push(':');
    } else if c == ' ' {
        out.push('\\');
        out.push('s');
    } else if c == '\\' {
        out.push('\\');
        out.push('\\');
    } else if c == '\r' {
        out.push('\\');
        out.push('r');
    } else if c == '\n' {
        out.push('\\');
        out.push('n');
    } else {
        out.push(c);
    }
    assert(out@ =~= old(out)@ + escape_char(c));
}

/// Escapes a tag value: `;`, space, `\`, CR and LF become `\:`, `\s`, `\\`, `\r`, `\n`.
pub fn escape_irc_tag_value(input: &str) -> (res: String)
    ensures
        res@ == escape_spec(input@),
{
    let v = chars_of(input);
    let mut out = String::new();
    let mut i: usize = 0;
    assert(v@.skip(0) =~= v@);
    while i < v.len()
        invariant
            i <= v@.len(),
            v@ == input@,
            out@ + escape_spec(v@.skip(i as int)) == escape_spec(v@),
        decreases v@.len() - i,
    {
        let c = v[i];
        proof {
            let rest = v@.skip(i as int);
            assert(rest[0] == c);
            assert(rest.drop_first() =~= v@.skip(i + 1));
            assert(escape_spec(rest) == escape_char(c) + escape_spec(v@.skip(i + 1)));
            assert(out@ + escape_char(c) + escape_spec(v@.skip(i + 1)) =~= out@ + escape_spec(rest));
        }
        push_escaped(&mut out, c);
        i += 1;
    }
    assert(v@.skip(i as int) =~= Seq::<char>::empty());
    assert(out@ + escape_spec(v@.skip(i as int)) =~= out@);
    out
}

fn push_unescaped(out: &mut String, c: char)
    ensures
        final(out)@ == old(out)@ + unescape_pair(c),
{
    if c == ':' {
        out.push(';');
    } else if c == 's' {
        out.push(' ');
    } else if c == '\\' {
        out.push('\\');
    } else if c == 'r' {
        out.push('\r');
    } else if c == 'n' {
        out.push('\n');
    } else {
        out.push('\\');
        out.push(c);
    }
    assert(out@ =~= old(out)@ + unescape_pair(c));
}

/// Unescapes the characters of a tag value (see [`unescape_spec`]).
pub fn unescape_chars(v: &Vec<char>) -> (res: String)
    ensures
        res@ == unescape_spec(v@),
{
    let mut out = String::new();
    let mut i: usize = 0;
    assert(v@.skip(0) =~= v@);
    while i < v.len()
        invariant
            i <= v@.len(),
            out@ + unescape_spec(v@.skip(i as int)) == unescape_spec(v@),
        decreases v@.len() - i,
    {
        let c = v[i];
        let ghost rest = v@.skip(i as int);
        assert(rest[0] == c);
        if c == '\\' {
            if i + 1 < v.len() {
                let d = v[i + 1];
                proof {
                    assert(rest[1] == d);
                    assert(rest.skip(2) =~= v@.skip(i + 2));
                    assert(out@ + unescape_pair(d) + unescape_spec(v@.skip(i + 2)) =~= out@
                        + unescape_spec(rest));
                }
                push_unescaped(&mut out, d);
                i += 2;
            } else {
                assert(rest.len() == 1);
                assert(out@ + unescape_spec(rest) =~= out@);
                return out;
            }
        } else {
            proof {
                assert(rest.drop_first() =~= v@.skip(i + 1));
                assert(out@ + seq![c] + unescape_spec(v@.skip(i + 1)) =~= out@ + unescape_spec(
                    rest,
                ));
            }
            out.push(c);
            i += 1;
        }
    }
    assert(v@.skip(i as int) =~= Seq::<char>::empty());
    assert(out@ + unescape_spec(v@.skip(i as int)) =~= out@);
    out
}

/// Unescapes a tag value: `\:`, `\s`, `\\`, `\r`, `\n` become `;`, space, `\`, CR, LF;
/// any other escaped character keeps its backslash, and a trailing lone backslash is dropped.
pub fn unescape_irc_tag_value(input: &str) -> (res: String)
    ensures
        res@ == unescape_spec(input@),
{
    let v = chars_of(input);
    unescape_chars(&v)
}

/// Unescaping undoes escaping: for every tag value `s`,
/// `unescape(escape(s)) == s`.
pub proof fn lemma_unescape_escape(s: Seq<char>)
    ensures
        unescape_spec(escape_spec(s)) == s,
    decreases s.len(),
{
    if s.len() > 0 {
        let c = s[0];
        let r = s.drop_first();
        let x = escape_spec(s);
        lemma_unescape_escape(r);
        assert(x == escape_char(c) + escape_spec(r));
        if c == ';' || c == ' ' || c == '\\' || c == '\r' || c == '\n' {
            assert(x[0] == '\\');
            assert(x.skip(2) =~= escape_spec(r));
            assert(unescape_pair(x[1]) == seq![c]);
        } else {
            assert(x[0] == c);
            assert(x.drop_first() =~= escape_spec(r));
        }
        assert(seq![c] + r =~= s);
    }
}


// ---------------------------------------------------------------------------
// Message tags
// ---------------------------------------------------------------------------

/// One message tag: `[+][vendor/]key_name[=value]`.
#[derive(Debug)]
pub struct IrcTag {
    client_prefix: Option<String>,
    key: String,
    key_name: String,
    value: Option<String>,
    vendor: Option<String>,
}

/// The mathematical model of an [`IrcTag`].
pub struct TagView {
    /// `Some("+")` for a client-only tag.
    pub client_prefix: Option<Seq<char>>,
    /// The whole key, prefix and vendor included.
    pub key: Seq<char>,
    /// The key without prefix and vendor.
    pub key_name: Seq<char>,
    /// The unescaped value; `None` when absent or empty.
    pub value: Option<Seq<char>>,
    /// The vendor part, without the `/`.
    pub vendor: Option<Seq<char>>,
}

impl View for IrcTag {
    type V = TagView;

    closed spec fn view(&self) -> TagView {
        TagView {
            client_prefix: self.client_prefix.deep_view(),
            key: self.key@,
            key_name: self.key_name@,
            value: self.value.deep_view(),
            vendor: self.vendor.deep_view(),
        }
    }
}

impl IrcTag {
    /// `Some("+")` when the tag carries the client-only prefix.
    pub fn client_prefix(&self) -> (res: &Option<String>)
        ensures
            res.deep_view() == self@.client_prefix,
    {
        &self.client_prefix
    }

    /// The full key.
    pub fn key(&self) -> (res: &String)
        ensures
            res@ == self@.key,
    {
        &self.key
    }

    /// The key name (without prefix and vendor).
    pub fn key_name(&self) -> (res: &String)
        ensures
            res@ == self@.key_name,
    {
        &self.key_name
    }

    /// The unescaped value, if any.
    pub fn value(&self) -> (res: &Option<String>)
        ensures
            res.deep_view() == self@.value,
    {
        &self.value
    }

    /// The vendor, if any.
    pub fn vendor(&self) -> (res: &Option<String>)
        ensures
            res.deep_view() == self@.vendor,
    {
        &self.vendor
    }
}

/// A character allowed in a tag key name: `[A-Za-z0-9-]`.
pub open spec fn is_key_name_char(c: char) -> bool {
    ('A' <= c && c <= 'Z') || ('a' <= c && c <= 'z') || ('0' <= c && c <= '9') || c == '-'
}

/// A valid key name matches `[A-Za-z0-9-]+`.
pub open spec fn valid_key_name(k: Seq<char>) -> bool {
    k.len() > 0 && forall|i: int| 0 <= i < k.len() ==> #[trigger] is_key_name_char(k[i])
}

/// The first index `k >= i` holding `=` or `/`, or `s.len()`.
pub open spec fn find_eq_or_slash(s: Seq<char>, i: int) -> int
    decreases s.len() - i,
{
    if 0 <= i < s.len() && s[i] != '=' && s[i] != '/' {
        find_eq_or_slash(s, i + 1)
    } else {
        i
    }
}

proof fn lemma_find_eq_or_slash(s: Seq<char>, i: int)
    requires
        0 <= i <= s.len(),
    ensures
        i <= find_eq_or_slash(s, i) <= s.len(),
        find_eq_or_slash(s, i) < s.len() ==> (s[find_eq_or_slash(s, i)] == '=' || s[find_eq_or_slash(s, i)] == '/'),
        forall|k: int| i <= k < find_eq_or_slash(s, i) ==> s[k] != '=' && s[k] != '/',
    decreases s.len() - i,
{
    if i < s.len() && s[i] != '=' && s[i] != '/' {
        lemma_find_eq_or_slash(s, i + 1);
    }
}

fn find_eq_or_slash_from(v: &Vec<char>, i: usize) -> (k: usize)
    requires
        i <= v@.len(),
    ensures
        k == find_eq_or_slash(v@, i as int),
{
    let mut k = i;
    while k < v.len() && v[k] != '=' && v[k] != '/'
        invariant
            i <= k <= v@.len(),
            find_eq_or_slash(v@, k as int) == find_eq_or_slash(v@, i as int),
        decreases v@.len() - k,
    {
        k += 1;
    }
    k
}

/// Whether `seg` starts with the client-only prefix `+`.
pub open spec fn seg_has_prefix(seg: Seq<char>) -> bool {
    seg.len() > 0 && seg[0] == '+'
}

/// Where the vendor (or, without one, the key name) starts.
pub open spec fn seg_after_prefix(seg: Seq<char>) -> int {
    if seg_has_prefix(seg) { 1 } else { 0 }
}

/// The end of the key: the first `=`.
pub open spec fn seg_key_end(seg: Seq<char>) -> int {
    find_char(seg, 0, '=')
}

/// Whether the key has a vendor: the first `=` or `/` after the prefix is a `/`.
pub open spec fn seg_has_vendor(seg: Seq<char>) -> bool {
    let v_end = find_eq_or_slash(seg, seg_after_prefix(seg));
    v_end < seg.len() && seg[v_end] == '/'
}

/// Where the key name starts.
pub open spec fn seg_name_start(seg: Seq<char>) -> int {
    if seg_has_vendor(seg) {
        find_eq_or_slash(seg, seg_after_prefix(seg)) + 1
    } else {
        seg_after_prefix(seg)
    }
}

/// The tag written by one `;`-separated segment of a tags string,
/// or `None` when its key name is not valid.
pub open spec fn segment_tag(seg: Seq<char>) -> Option<TagView> {
    let key_end = seg_key_end(seg);
    let key_name = seg.subrange(seg_name_start(seg), key_end);
    let raw_value = seg.subrange(key_end + 1, seg.len() as int);
    if valid_key_name(key_name) {
        Some(
            TagView {
                client_prefix: if seg_has_prefix(seg) { Some(seq!['+']) } else { None },
                key: seg.subrange(0, key_end),
                key_name,
                value: if key_end < seg.len() && raw_value.len() > 0 {
                    Some(unescape_spec(raw_value))
                } else {
                    None
                },
                vendor: if seg_has_vendor(seg) {
                    Some(seg.subrange(seg_after_prefix(seg), find_eq_or_slash(seg, seg_after_prefix(seg))))
                } else {
                    None
                },
            },
        )
    } else {
        None
    }
}

/// The tags written in `s` from index `i` on, added to `acc` segment by segment:
/// a later tag with the same key replaces an earlier one.
pub open spec fn tags_from(s: Seq<char>, i: int, acc: Map<Seq<char>, TagView>) -> Map<Seq<char>, TagView>
    decreases s.len() - i,
{
    if 0 <= i <= s.len() {
        let e = find_char(s, i, ';');
        let acc2 = match segment_tag(s.subrange(i, e)) {
            Some(t) => acc.insert(t.key, t),
            None => acc,
        };
        if e < s.len() {
            proof {
                lemma_find_char(s, i, ';');
            }
            tags_from(s, e + 1, acc2)
        } else {
            acc2
        }
    } else {
        acc
    }
}

/// The tags of a tags string, keyed by their key; `None` when there is no valid tag.
pub open spec fn spec_parse_tags(s: Seq<char>) -> Option<Map<Seq<char>, TagView>> {
    let m = tags_from(s, 0, Map::empty());
    if m.dom() == Set::<Seq<char>>::empty() {
        None
    } else {
        Some(m)
    }
}

/// The map that a list of tags stands for.
pub open spec fn tag_map(tags: Seq<IrcTag>) -> Map<Seq<char>, TagView>
    decreases tags.len(),
{
    if tags.len() == 0 {
        Map::empty()
    } else {
        tag_map(tags.drop_last()).insert(tags.last()@.key, tags.last()@)
    }
}

/// No two tags of the list share a key.
pub open spec fn keys_distinct(tags: Seq<IrcTag>) -> bool {
    forall|i: int, j: int|
        0 <= i < tags.len() && 0 <= j < tags.len() && i != j ==> #[trigger] tags[i]@.key
            != #[trigger] tags[j]@.key
}

proof fn lemma_tag_map_dom(tags: Seq<IrcTag>, k: Seq<char>)
    ensures
        tag_map(tags).dom().contains(k) <==> exists|i: int| 0 <= i < tags.len() && #[trigger] tags[i]@.key == k,
    decreases tags.len(),
{
    if tags.len() > 0 {
        let d = tags.drop_last();
        lemma_tag_map_dom(d, k);
        if tag_map(tags).dom().contains(k) {
            if k != tags.last()@.key {
                let i = choose|i: int| 0 <= i < d.len() && #[trigger] d[i]@.key == k;
                assert(tags[i] == d[i]);
            } else {
                assert(tags[tags.len() - 1]@.key == k);
            }
        }
        if exists|i: int| 0 <= i < tags.len() && #[trigger] tags[i]@.key == k {
            let i = choose|i: int| 0 <= i < tags.len() && #[trigger] tags[i]@.key == k;
            if i < tags.len() - 1 {
                assert(d[i] == tags[i]);
            }
        }
    }
}

proof fn lemma_tag_map_finite(tags: Seq<IrcTag>)
    ensures
        tag_map(tags).dom().finite(),
        tags.len() > 0 ==> tag_map(tags).dom().contains(tags.last()@.key),
    decreases tags.len(),
{
    if tags.len() > 0 {
        lemma_tag_map_finite(tags.drop_last());
    }
}

proof fn lemma_tag_map_remove(tags: Seq<IrcTag>, k: int)
    requires
        0 <= k < tags.len(),
        keys_distinct(tags),
    ensures
        tag_map(tags.remove(k)) == tag_map(tags).remove(tags[k]@.key),
        keys_distinct(tags.remove(k)),
    decreases tags.len(),
{
    let key = tags[k]@.key;
    let d = tags.drop_last();
    let r = tags.remove(k);
    assert forall|i: int, j: int|
        0 <= i < r.len() && 0 <= j < r.len() && i != j implies #[trigger] r[i]@.key
            != #[trigger] r[j]@.key by {
        let i2 = if i < k { i } else { i + 1 };
        let j2 = if j < k { j } else { j + 1 };
        assert(r[i] == tags[i2]);
        assert(r[j] == tags[j2]);
    }
    if k == tags.len() - 1 {
        assert(r =~= d);
        lemma_tag_map_dom(d, key);
        assert(!tag_map(d).dom().contains(key)) by {
            if tag_map(d).dom().contains(key) {
                let i = choose|i: int| 0 <= i < d.len() && #[trigger] d[i]@.key == key;
                assert(tags[i] == d[i]);
            }
        }
        assert(tag_map(tags).remove(key) =~= tag_map(d));
    } else {
        assert(keys_distinct(d)) by {
            assert forall|i: int, j: int|
                0 <= i < d.len() && 0 <= j < d.len() && i != j implies #[trigger] d[i]@.key
                    != #[trigger] d[j]@.key by {
                assert(d[i] == tags[i]);
                assert(d[j] == tags[j]);
            }
        }
        lemma_tag_map_remove(d, k);
        assert(d[k] == tags[k]);
        assert(r.drop_last() =~= d.remove(k));
        assert(r.last() == tags.last());
        assert(tags.last()@.key != key) by {
            assert(tags[tags.len() - 1] == tags.last());
        }
        assert(tag_map(tags).remove(key) =~= tag_map(r));
    }
}


fn is_key_name_char_exec(c: char) -> (res: bool)
    ensures
        res == is_key_name_char(c),
{
    ('A' <= c && c <= 'Z') || ('a' <= c && c <= 'z') || ('0' <= c && c <= '9') || c == '-'
}

fn valid_key_name_range(seg: &Vec<char>, a: usize, b: usize) -> (res: bool)
    requires
        a <= b <= seg@.len(),
    ensures
        res == valid_key_name(seg@.subrange(a as int, b as int)),
{
    if a == b {
        return false;
    }
    let mut k = a;
    while k < b
        invariant
            a <= k <= b,
            b <= seg@.len(),
            forall|i: int| a <= i < k ==> is_key_name_char(seg@[i]),
        decreases b - k,
    {
        if !is_key_name_char_exec(seg[k]) {
            assert(seg@.subrange(a as int, b as int)[k - a] == seg@[k as int]);
            return false;
        }
        k += 1;
    }
    assert forall|i: int| 0 <= i < b - a implies #[trigger] is_key_name_char(
        seg@.subrange(a as int, b as int)[i],
    ) by {
        assert(seg@.subrange(a as int, b as int)[i] == seg@[a + i]);
    }
    true
}

/// The tag written by one segment of a tags string (see [`segment_tag`]).
fn segment_tag_exec(seg: &Vec<char>) -> (res: Option<IrcTag>)
    ensures
        match res {
            Some(t) => segment_tag(seg@) == Some(t@),
            None => segment_tag(seg@).is_none(),
        },
{
    let len = seg.len();
    let prefix = len > 0 && seg[0] == '+';
    let p: usize = if prefix { 1 } else { 0 };
    let key_end = find_char_from(seg, 0, '=');
    let v_end = find_eq_or_slash_from(seg, p);
    proof {
        lemma_find_char(seg@, 0, '=');
        lemma_find_eq_or_slash(seg@, p as int);
    }
    let has_vendor = v_end < len && seg[v_end] == '/';
    let name_start = if has_vendor { v_end + 1 } else { p };
    assert(name_start <= key_end) by {
        if key_end < name_start {
            if key_end < len {
                assert(seg@[key_end as int] == '=');
            }
        }
    }
    if !valid_key_name_range(seg, name_start, key_end) {
        return None;
    }
    let client_prefix = if prefix {
        let mut plus = String::new();
        plus.push('+');
        assert(plus@ =~= seq!['+']);
        Some(plus)
    } else {
        None
    };
    let vendor = if has_vendor {
        Some(string_from_range(seg, p, v_end))
    } else {
        None
    };
    let value = if key_end < len && key_end + 1 < len {
        let raw = chars_in_range(seg, key_end + 1, len);
        Some(unescape_chars(&raw))
    } else {
        None
    };
    let tag = IrcTag {
        client_prefix,
        key: string_from_range(seg, 0, key_end),
        key_name: string_from_range(seg, name_start, key_end),
        value,
        vendor,
    };
    proof {
        let sv = segment_tag(seg@).unwrap();
        assert(tag@.client_prefix == sv.client_prefix);
        assert(tag@.vendor == sv.vendor);
        assert(tag@.value == sv.value);
        assert(tag@ == sv);
    }
    Some(tag)
}

/// Adds `tag` to the list, replacing a tag with the same key.
fn insert_tag(tags: &mut Vec<IrcTag>, tag: IrcTag)
    requires
        keys_distinct(old(tags)@),
    ensures
        keys_distinct(final(tags)@),
        tag_map(final(tags)@) == tag_map(old(tags)@).insert(tag@.key, tag@),
{
    let mut k: usize = 0;
    let mut found = false;
    while k < tags.len() && !found
        invariant
            k <= tags@.len(),
            found ==> k < tags@.len() && tags@[k as int]@.key == tag@.key,
            forall|i: int| 0 <= i < k ==> #[trigger] tags@[i]@.key != tag@.key,
        decreases tags@.len() - k + (if found { 0int } else { 1int }),
    {
        if tags[k].key == tag.key {
            found = true;
        } else {
            k += 1;
        }
    }
    let ghost before = tags@;
    if found {
        proof {
            lemma_tag_map_remove(before, k as int);
        }
        tags.remove(k);
    } else {
        proof {
            lemma_tag_map_dom(before, tag@.key);
        }
    }
    let ghost mid = tags@;
    assert(!tag_map(mid).dom().contains(tag@.key)) by {
        lemma_tag_map_dom(mid, tag@.key);
        if tag_map(mid).dom().contains(tag@.key) {
            let i = choose|i: int| 0 <= i < mid.len() && #[trigger] mid[i]@.key == tag@.key;
            if found {
                let i2 = if i < k { i } else { i + 1 };
                assert(mid[i] == before[i2]);
            }
        }
    }
    assert(tag_map(mid) =~= tag_map(before).remove(tag@.key));
    tags.push(tag);
    proof {
        let after = tags@;
        assert(after.drop_last() =~= mid);
        assert forall|i: int, j: int|
            0 <= i < after.len() && 0 <= j < after.len() && i != j implies #[trigger] after[i]@.key
                != #[trigger] after[j]@.key by {
            if i < mid.len() && j < mid.len() {
                assert(after[i] == mid[i]);
                assert(after[j] == mid[j]);
            } else if i < mid.len() {
                assert(after[i] == mid[i]);
                lemma_tag_map_dom(mid, tag@.key);
            } else if j < mid.len() {
                assert(after[j] == mid[j]);
                lemma_tag_map_dom(mid, tag@.key);
            }
        }
        assert(tag_map(after) =~= tag_map(before).insert(tag@.key, tag@));
    }
}

/// The tags of a message, as the model of [`parse_irc_tags`] sees them.
pub open spec fn tags_view(tags: Option<Vec<IrcTag>>) -> Option<Map<Seq<char>, TagView>> {
    match tags {
        Some(v) => Some(tag_map(v@)),
        None => None,
    }
}

/// Parses a tags string `key[=value];key[=value];...`. Segments whose key name is not
/// `[A-Za-z0-9-]+` are skipped, a later tag replaces an earlier one with the same key,
/// and `None` comes back when no tag is left.
pub fn parse_irc_tags(tags_str: &str) -> (res: Option<Vec<IrcTag>>)
    ensures
        tags_view(res) == spec_parse_tags(tags_str@),
        res matches Some(v) ==> keys_distinct(v@) && v@.len() > 0,
{
    let v = chars_of(tags_str);
    let ghost s = v@;
    let mut tags: Vec<IrcTag> = Vec::new();
    let mut i: usize = 0;
    assert(tag_map(tags@) =~= Map::<Seq<char>, TagView>::empty());
    loop
        invariant
            i <= v@.len(),
            v@ == s,
            s == tags_str@,
            keys_distinct(tags@),
            tags_from(s, 0, Map::empty()) == tags_from(s, i as int, tag_map(tags@)),
        ensures
            keys_distinct(tags@),
            tags_from(s, 0, Map::empty()) == tag_map(tags@),
        decreases v@.len() - i,
    {
        let e = find_char_from(&v, i, ';');
        proof {
            lemma_find_char(s, i as int, ';');
        }
        let seg = chars_in_range(&v, i, e);
        let ghost acc = tag_map(tags@);
        match segment_tag_exec(&seg) {
            Some(t) => {
                insert_tag(&mut tags, t);
            },
            None => {},
        }
        if e < v.len() {
            i = e + 1;
        } else {
            break;
        }
    }
    let ghost m = tags_from(s, 0, Map::empty());
    proof {
        assert(m == tag_map(tags@));
        lemma_tag_map_finite(tags@);
    }
    if tags.len() == 0 {
        assert(tag_map(tags@).dom() =~= Set::<Seq<char>>::empty());
        None
    } else {
        assert(tag_map(tags@).dom().contains(tags@.last()@.key));
        Some(tags)
    }
}


// ---------------------------------------------------------------------------
// Messages
// ---------------------------------------------------------------------------

/// A parsed IRC message: `[@tags] [:source] command [params...] [:trailing]`.
#[derive(Debug)]
pub struct IrcMessage {
    tags: Option<Vec<IrcTag>>,
    source: Option<String>,
    command: String,
    parameters: Vec<String>,
}

/// The mathematical model of an [`IrcMessage`].
pub struct MessageView {
    pub tags: Option<Map<Seq<char>, TagView>>,
    pub source: Option<Seq<char>>,
    pub command: Seq<char>,
    pub parameters: Seq<Seq<char>>,
}

impl View for IrcMessage {
    type V = MessageView;

    closed spec fn view(&self) -> MessageView {
        MessageView {
            tags: tags_view(self.tags),
            source: self.source.deep_view(),
            command: self.command@,
            parameters: self.parameters.deep_view(),
        }
    }
}

impl IrcMessage {
    /// The valid tags of the message, if it has any.
    pub fn tags(&self) -> (res: &Option<Vec<IrcTag>>)
        ensures
            tags_view(*res) == self@.tags,
    {
        &self.tags
    }

    /// The source (prefix) of the message, without the `:`.
    pub fn source(&self) -> (res: &Option<String>)
        ensures
            res.deep_view() == self@.source,
    {
        &self.source
    }

    /// The command word.
    pub fn command(&self) -> (res: &String)
        ensures
            res@ == self@.command,
    {
        &self.command
    }

    /// The middle parameters followed by the trailing one, if any.
    pub fn parameters(&self) -> (res: &Vec<String>)
        ensures
            res.deep_view() == self@.parameters,
    {
        &self.parameters
    }
}

/// A leading field `marker word spaces` at index `i` (tags with `@`, source with `:`),
/// taken only when a further word follows it. Gives the word's bounds and where the
/// next word starts.
pub open spec fn head_field(s: Seq<char>, i: int, marker: char) -> Option<(int, int, int)> {
    if 0 <= i < s.len() && s[i] == marker {
        let e = find_char(s, i + 1, ' ');
        let j = skip_spaces(s, e);
        if e > i + 1 && e < s.len() && j < s.len() {
            Some((i + 1, e, j))
        } else {
            None
        }
    } else {
        None
    }
}

/// The parameters written from index `i` on: space-separated words, then, at the first
/// word that starts with `:`, a trailing parameter that runs to the end of the message.
/// `None` when that trailing parameter holds a line feed.
pub open spec fn tail_params(s: Seq<char>, i: int) -> Option<Seq<Seq<char>>>
    decreases s.len() - i,
{
    if 0 <= i <= s.len() {
        let j = skip_spaces(s, i);
        if j >= s.len() {
            Some(Seq::empty())
        } else if s[j] == ':' {
            let t = s.subrange(j + 1, s.len() as int);
            if t.contains('\n') {
                None
            } else {
                Some(seq![t])
            }
        } else {
            let e = find_char(s, j, ' ');
            proof {
                lemma_skip_spaces(s, i);
                lemma_find_char(s, j, ' ');
            }
            match tail_params(s, e) {
                Some(rest) => Some(seq![s.subrange(j, e)] + rest),
                None => None,
            }
        }
    } else {
        None
    }
}

/// Where the tags field ends (the start of the next field), or where the message starts.
pub open spec fn after_tags(s: Seq<char>) -> int {
    match head_field(s, skip_spaces(s, 0), '@') {
        Some(f) => f.2,
        None => skip_spaces(s, 0),
    }
}

/// Where the command word starts.
pub open spec fn command_start(s: Seq<char>) -> int {
    match head_field(s, after_tags(s), ':') {
        Some(f) => f.2,
        None => after_tags(s),
    }
}

/// The model of [`parse_irc_message`]: `None` when the message is rejected.
pub open spec fn spec_parse_message(s: Seq<char>) -> Option<MessageView> {
    if skip_spaces(s, 0) >= s.len() {
        None
    } else {
        let tf = head_field(s, skip_spaces(s, 0), '@');
        let sf = head_field(s, after_tags(s), ':');
        let c = command_start(s);
        let ce = find_char(s, c, ' ');
        match tail_params(s, ce) {
            None => None,
            Some(params) => Some(
                MessageView {
                    tags: match tf {
                        Some(f) => spec_parse_tags(s.subrange(f.0, f.1)),
                        None => None,
                    },
                    source: match sf {
                        Some(f) => Some(s.subrange(f.0, f.1)),
                        None => None,
                    },
                    command: s.subrange(c, ce),
                    parameters: params,
                },
            ),
        }
    }
}

proof fn lemma_head_field(s: Seq<char>, i: int, marker: char)
    requires
        0 <= i <= s.len(),
    ensures
        head_field(s, i, marker) matches Some(f) ==> i < f.0 < f.1 < f.2 < s.len() && s[f.2]
            != ' ',
{
    if 0 <= i < s.len() && s[i] == marker {
        lemma_find_char(s, i + 1, ' ');
        let e = find_char(s, i + 1, ' ');
        lemma_skip_spaces(s, e);
    }
}

fn head_field_exec(v: &Vec<char>, i: usize, marker: char) -> (res: Option<(usize, usize, usize)>)
    requires
        i <= v@.len(),
    ensures
        match res {
            Some(f) => head_field(v@, i as int, marker) == Some((f.0 as int, f.1 as int, f.2 as int)),
            None => head_field(v@, i as int, marker).is_none(),
        },
{
    if i < v.len() && v[i] == marker {
        let e = find_char_from(v, i + 1, ' ');
        let j = skip_spaces_from(v, e);
        if e > i + 1 && e < v.len() && j < v.len() {
            Some((i + 1, e, j))
        } else {
            None
        }
    } else {
        None
    }
}

fn contains_char_in_range(v: &Vec<char>, a: usize, b: usize, c: char) -> (res: bool)
    requires
        a <= b <= v@.len(),
    ensures
        res == v@.subrange(a as int, b as int).contains(c),
{
    let mut k = a;
    while k < b
        invariant
            a <= k <= b,
            b <= v@.len(),
            forall|i: int| a <= i < k ==> v@[i] != c,
        decreases b - k,
    {
        if v[k] == c {
            assert(v@.subrange(a as int, b as int)[k - a] == c);
            return true;
        }
        k += 1;
    }
    assert(!v@.subrange(a as int, b as int).contains(c)) by {
        if v@.subrange(a as int, b as int).contains(c) {
            let i = choose|i: int| 0 <= i < b - a && v@.subrange(a as int, b as int)[i] == c;
            assert(v@[a + i] == c);
        }
    }
    false
}

fn tail_params_exec(v: &Vec<char>, start: usize) -> (res: Option<Vec<String>>)
    requires
        start <= v@.len(),
    ensures
        match res {
            Some(p) => tail_params(v@, start as int) == Some(p.deep_view()),
            None => tail_params(v@, start as int).is_none(),
        },
{
    let ghost s = v@;
    let mut params: Vec<String> = Vec::new();
    let mut i = start;
    assert(params.deep_view() =~= Seq::<Seq<char>>::empty());
    loop
        invariant
            i <= v@.len(),
            s == v@,
            tail_params(s, start as int) == match tail_params(s, i as int) {
                Some(r) => Some(params.deep_view() + r),
                None => None,
            },
        decreases v@.len() - i,
    {
        let j = skip_spaces_from(v, i);
        proof {
            lemma_skip_spaces(s, i as int);
        }
        if j >= v.len() {
            assert(params.deep_view() + Seq::<Seq<char>>::empty() =~= params.deep_view());
            return Some(params);
        } else if v[j] == ':' {
            if contains_char_in_range(v, j + 1, v.len(), '\n') {
                return None;
            }
            let t = string_from_range(v, j + 1, v.len());
            let ghost old_p = params.deep_view();
            params.push(t);
            assert(params.deep_view() =~= old_p + seq![t@]);
            return Some(params);
        } else {
            let e = find_char_from(v, j, ' ');
            proof {
                lemma_find_char(s, j as int, ' ');
            }
            let w = string_from_range(v, j, e);
            let ghost old_p = params.deep_view();
            params.push(w);
            proof {
                assert(params.deep_view() =~= old_p.push(w@));
                match tail_params(s, e as int) {
                    Some(r) => {
                        assert(old_p + (seq![w@] + r) =~= params.deep_view() + r);
                    },
                    None => {},
                }
            }
            i = e;
        }
    }
}

/// Parses one IRC message line.
///
/// After leading spaces come an optional `@tags` field and an optional `:source` field
/// (each taken only when a command follows it), the command word, space-separated middle
/// parameters, and an optional trailing parameter introduced by ` :` that runs to the end
/// of the line. The message is rejected when it holds no command or when the trailing
/// parameter holds a line feed.
pub fn parse_irc_message(message: &str) -> (res: Result<IrcMessage, String>)
    ensures
        match res {
            Ok(m) => spec_parse_message(message@) == Some(m@),
            Err(e) => spec_parse_message(message@).is_none() && e@ == "Invalid message format"@,
        },
{
    let v = chars_of(message);
    let ghost s = v@;
    let i0 = skip_spaces_from(&v, 0);
    if i0 >= v.len() {
        return Err(String::from_str("Invalid message format"));
    }
    proof {
        lemma_skip_spaces(s, 0);
        lemma_head_field(s, i0 as int, '@');
    }
    let tf = head_field_exec(&v, i0, '@');
    let i1 = match tf {
        Some(f) => f.2,
        None => i0,
    };
    proof {
        lemma_head_field(s, i1 as int, ':');
    }
    let sf = head_field_exec(&v, i1, ':');
    let c = match sf {
        Some(f) => f.2,
        None => i1,
    };
    let ce = find_char_from(&v, c, ' ');
    let params = match tail_params_exec(&v, ce) {
        Some(p) => p,
        None => {
            return Err(String::from_str("Invalid message format"));
        },
    };
    let tags = match tf {
        Some(f) => {
            let tags_str = string_from_range(&v, f.0, f.1);
            parse_irc_tags(tags_str.as_str())
        },
        None => None,
    };
    let source = match sf {
        Some(f) => Some(string_from_range(&v, f.0, f.1)),
        None => None,
    };
    let command = string_from_range(&v, c, ce);
    let msg = IrcMessage { tags, source, command, parameters: params };
    proof {
        let m = spec_parse_message(s).unwrap();
        assert(msg@.tags == m.tags);
        assert(msg@.source == m.source);
        assert(msg@ == m);
    }
    Ok(msg)
}


// ---------------------------------------------------------------------------
// Laws
// ---------------------------------------------------------------------------

/// A middle parameter: a non-empty word without spaces that does not start with `:`.
pub open spec fn is_middle_param(w: Seq<char>) -> bool {
    w.len() > 0 && w[0] != ':' && !w.contains(' ')
}

/// A word: non-empty, without spaces.
pub open spec fn is_word(w: Seq<char>) -> bool {
    w.len() > 0 && !w.contains(' ')
}

proof fn lemma_range_is_word(s: Seq<char>, a: int, b: int)
    requires
        0 <= a < b <= s.len(),
        forall|k: int| a <= k < b ==> s[k] != ' ',
    ensures
        is_word(s.subrange(a, b)),
{
    if s.subrange(a, b).contains(' ') {
        let i = choose|i: int| 0 <= i < b - a && s.subrange(a, b)[i] == ' ';
        assert(s[a + i] == ' ');
    }
}

proof fn lemma_tail_params_shape(s: Seq<char>, i: int)
    requires
        0 <= i <= s.len(),
    ensures
        tail_params(s, i) matches Some(p) ==> forall|k: int|
            0 <= k < p.len() - 1 ==> is_middle_param(#[trigger] p[k]),
    decreases s.len() - i,
{
    let j = skip_spaces(s, i);
    lemma_skip_spaces(s, i);
    if j < s.len() && s[j] != ':' {
        let e = find_char(s, j, ' ');
        lemma_find_char(s, j, ' ');
        lemma_tail_params_shape(s, e);
        if let Some(rest) = tail_params(s, e) {
            let w = s.subrange(j, e);
            lemma_range_is_word(s, j, e);
            assert(w[0] == s[j]);
            let p = seq![w] + rest;
            assert forall|k: int| 0 <= k < p.len() - 1 implies is_middle_param(#[trigger] p[k]) by {
                if k > 0 {
                    assert(p[k] == rest[k - 1]);
                }
            }
        }
    }
}

/// The shape of every accepted message: the command is a word (non-empty, without
/// spaces), so is the source when there is one, and every parameter but the last is a
/// middle parameter — non-empty, without spaces, not starting with `:` — so that no empty
/// parameter comes from repeated spaces and only the last can be a trailing one.
pub proof fn lemma_message_shape(s: Seq<char>)
    requires
        spec_parse_message(s) is Some,
    ensures
        is_word(spec_parse_message(s).unwrap().command),
        spec_parse_message(s).unwrap().source matches Some(src) ==> is_word(src),
        forall|k: int|
            0 <= k < spec_parse_message(s).unwrap().parameters.len() - 1 ==> is_middle_param(
                #[trigger] spec_parse_message(s).unwrap().parameters[k],
            ),
{
    let i0 = skip_spaces(s, 0);
    lemma_skip_spaces(s, 0);
    lemma_head_field(s, i0, '@');
    let i1 = after_tags(s);
    lemma_head_field(s, i1, ':');
    let c = command_start(s);
    lemma_find_char(s, c, ' ');
    let ce = find_char(s, c, ' ');
    lemma_range_is_word(s, c, ce);
    if let Some(f) = head_field(s, i1, ':') {
        lemma_find_char(s, i1 + 1, ' ');
        lemma_range_is_word(s, f.0, f.1);
    }
    lemma_tail_params_shape(s, ce);
}

/// Every tag in the map holds valid key name and is stored under its own key.
pub open spec fn tags_well_keyed(m: Map<Seq<char>, TagView>) -> bool {
    forall|k: Seq<char>| #[trigger] m.dom().contains(k) ==> m[k].key == k && valid_key_name(m[k].key_name)
}

proof fn lemma_tags_from_well_keyed(s: Seq<char>, i: int, acc: Map<Seq<char>, TagView>)
    requires
        tags_well_keyed(acc),
    ensures
        tags_well_keyed(tags_from(s, i, acc)),
    decreases s.len() - i,
{
    if 0 <= i <= s.len() {
        let e = find_char(s, i, ';');
        lemma_find_char(s, i, ';');
        let acc2 = match segment_tag(s.subrange(i, e)) {
            Some(t) => acc.insert(t.key, t),
            None => acc,
        };
        assert(tags_well_keyed(acc2));
        if e < s.len() {
            lemma_tags_from_well_keyed(s, e + 1, acc2);
        }
    }
}

/// Every tag that parsing keeps has a key name matching `[A-Za-z0-9-]+` and is found
/// under its own full key.
pub proof fn lemma_parsed_tags_well_keyed(s: Seq<char>)
    requires
        spec_parse_tags(s) is Some,
    ensures
        tags_well_keyed(spec_parse_tags(s).unwrap()),
{
    lemma_tags_from_well_keyed(s, 0, Map::empty());
}


/// The middle parameters written one after the other, each after a space.
pub open spec fn join_middles(ms: Seq<Seq<char>>) -> Seq<char>
    decreases ms.len(),
{
    if ms.len() == 0 {
        seq![]
    } else {
        seq![' '] + ms[0] + join_middles(ms.drop_first())
    }
}

/// A message written from its parts: `[@tags ][:source ]command[ middle]*[ :trailing]`.
pub open spec fn compose_message(
    tags: Option<Seq<char>>,
    source: Option<Seq<char>>,
    command: Seq<char>,
    middles: Seq<Seq<char>>,
    trailing: Option<Seq<char>>,
) -> Seq<char> {
    (match tags {
        Some(t) => seq!['@'] + t + seq![' '],
        None => seq![],
    }) + (match source {
        Some(src) => seq![':'] + src + seq![' '],
        None => seq![],
    }) + command + join_middles(middles) + (match trailing {
        Some(t) => seq![' ', ':'] + t,
        None => seq![],
    })
}

/// The trailing parameter as a list of at most one parameter.
pub open spec fn trailing_params(trailing: Option<Seq<char>>) -> Seq<Seq<char>> {
    match trailing {
        Some(t) => seq![t],
        None => seq![],
    }
}

proof fn lemma_find_char_at(s: Seq<char>, i: int, n: int, c: char)
    requires
        0 <= i <= n <= s.len(),
        forall|k: int| i <= k < n ==> s[k] != c,
        n == s.len() || s[n] == c,
    ensures
        find_char(s, i, c) == n,
    decreases n - i,
{
    if i < n {
        lemma_find_char_at(s, i + 1, n, c);
    }
}

proof fn lemma_skip_one_space(s: Seq<char>, i: int)
    requires
        0 <= i < s.len(),
        s[i] == ' ',
        i + 1 == s.len() || s[i + 1] != ' ',
    ensures
        skip_spaces(s, i) == i + 1,
{
    assert(skip_spaces(s, i + 1) == i + 1);
}

proof fn lemma_word_in(s: Seq<char>, a: int, w: Seq<char>)
    requires
        is_word(w),
        0 <= a,
        a + w.len() <= s.len(),
        s.subrange(a, a + w.len()) == w,
    ensures
        forall|k: int| a <= k < a + w.len() ==> s[k] != ' ',
{
    assert forall|k: int| a <= k < a + w.len() implies s[k] != ' ' by {
        assert(s[k] == w[k - a]);
        if s[k] == ' ' {
            assert(w.contains(' '));
        }
    }
}

proof fn lemma_tail_compose(p: Seq<char>, ms: Seq<Seq<char>>, trailing: Option<Seq<char>>)
    requires
        forall|k: int| 0 <= k < ms.len() ==> is_middle_param(#[trigger] ms[k]),
        trailing matches Some(t) ==> !t.contains('\n'),
    ensures
        tail_params(
            p + join_middles(ms) + (match trailing {
                Some(t) => seq![' ', ':'] + t,
                None => seq![],
            }),
            p.len() as int,
        ) == Some(ms + trailing_params(trailing)),
    decreases ms.len(),
{
    let tr = match trailing {
        Some(t) => seq![' ', ':'] + t,
        None => seq![],
    };
    let s = p + join_middles(ms) + tr;
    let i = p.len() as int;
    if ms.len() == 0 {
        assert(join_middles(ms) =~= Seq::<char>::empty());
        match trailing {
            Some(t) => {
                assert(s[i] == ' ' && s[i + 1] == ':');
                lemma_skip_one_space(s, i);
                assert(s.subrange(i + 2, s.len() as int) =~= t);
                assert(ms + trailing_params(trailing) =~= seq![t]);
            },
            None => {
                assert(s.len() == i);
                assert(ms + trailing_params(trailing) =~= Seq::<Seq<char>>::empty());
            },
        }
    } else {
        let m0 = ms[0];
        let rest = ms.drop_first();
        assert(is_middle_param(m0));
        assert forall|k: int| 0 <= k < rest.len() implies is_middle_param(#[trigger] rest[k]) by {
            assert(rest[k] == ms[k + 1]);
        }
        let p2 = p + seq![' '] + m0;
        assert(s =~= p2 + join_middles(rest) + tr);
        lemma_tail_compose(p2, rest, trailing);
        let j = i + 1;
        let e = j + m0.len();
        assert(s[i] == ' ');
        assert(s[j] == m0[0]);
        lemma_skip_one_space(s, i);
        assert(s.subrange(j, e) =~= m0);
        lemma_word_in(s, j, m0);
        assert(e == s.len() || s[e] == ' ') by {
            if rest.len() > 0 {
                assert(join_middles(rest)[0] == ' ');
                assert(s[e] == join_middles(rest)[0]);
            } else {
                assert(join_middles(rest) =~= Seq::<char>::empty());
                if trailing is Some {
                    assert(s[e] == tr[0]);
                }
            }
        }
        lemma_find_char_at(s, j, e, ' ');
        assert(p2.len() == e);
        assert(ms + trailing_params(trailing) =~= seq![m0] + (rest + trailing_params(trailing)));
    }
}

proof fn lemma_head_field_word(s: Seq<char>, i: int, marker: char, w: Seq<char>)
    requires
        0 <= i,
        is_word(w),
        i + w.len() + 2 < s.len(),
        s[i] == marker,
        s.subrange(i + 1, i + 1 + w.len()) == w,
        s[i + 1 + w.len()] == ' ',
        s[i + 2 + w.len()] != ' ',
    ensures
        head_field(s, i, marker) == Some((i + 1, i + 1 + w.len(), i + 2 + w.len())),
{
    lemma_word_in(s, i + 1, w);
    lemma_find_char_at(s, i + 1, i + 1 + w.len(), ' ');
    lemma_skip_one_space(s, i + 1 + w.len());
}

/// The head of a composed message: where its command starts and what its tags and source
/// fields are.
proof fn lemma_composed_head(tp: Seq<char>, sp: Seq<char>, r: Seq<char>, tags: Option<Seq<char>>, source: Option<Seq<char>>)
    requires
        tags matches Some(t) ==> is_word(t) && tp == seq!['@'] + t + seq![' '],
        tags is None ==> tp == Seq::<char>::empty(),
        source matches Some(src) ==> is_word(src) && sp == seq![':'] + src + seq![' '],
        source is None ==> sp == Seq::<char>::empty(),
        r.len() > 0,
        r[0] != ' ',
        r[0] != '@',
        r[0] != ':',
    ensures
        skip_spaces(tp + sp + r, 0) == 0,
        head_field(tp + sp + r, 0, '@') == (match tags {
            Some(t) => Some((1int, tp.len() - 1int, tp.len() as int)),
            None => None,
        }),
        after_tags(tp + sp + r) == tp.len(),
        head_field(tp + sp + r, tp.len() as int, ':') == (match source {
            Some(src) => Some((tp.len() + 1int, tp.len() + sp.len() - 1int, tp.len() + sp.len() + 0int)),
            None => None,
        }),
        command_start(tp + sp + r) == tp.len() + sp.len() + 0int,
{
    let s = tp + sp + r;
    let a = tp.len() as int;
    let b = a + sp.len();
    assert(s[b] == r[0]);
    assert(s[0] != ' ');
    match tags {
        Some(t) => {
            assert(s.subrange(1, 1 + t.len() as int) =~= t);
            lemma_head_field_word(s, 0, '@', t);
        },
        None => {},
    }
    match source {
        Some(src) => {
            assert(s.subrange(a + 1, a + 1 + src.len()) =~= src);
            lemma_head_field_word(s, a, ':', src);
        },
        None => {},
    }
}

/// What parsing gives back of a message written from its parts: with a tags field and a
/// source that are words, a command word that does not start with `@` or `:`, middle
/// parameters, and a trailing parameter without a line feed, the message
/// `[@tags ][:source ]command[ middle]*[ :trailing]` parses back to those parts, the tags
/// field as [`parse_irc_tags`] reads it.
#[verifier::rlimit(50)]
pub proof fn lemma_parse_composed(
    tags: Option<Seq<char>>,
    source: Option<Seq<char>>,
    command: Seq<char>,
    middles: Seq<Seq<char>>,
    trailing: Option<Seq<char>>,
)
    requires
        tags matches Some(t) ==> is_word(t),
        source matches Some(src) ==> is_word(src),
        is_word(command),
        command[0] != '@',
        command[0] != ':',
        forall|k: int| 0 <= k < middles.len() ==> is_middle_param(#[trigger] middles[k]),
        trailing matches Some(t) ==> !t.contains('\n'),
    ensures
        spec_parse_message(compose_message(tags, source, command, middles, trailing)) == Some(
            MessageView {
                tags: match tags {
                    Some(t) => spec_parse_tags(t),
                    None => None,
                },
                source,
                command,
                parameters: middles + trailing_params(trailing),
            },
        ),
{
    let tp = match tags {
        Some(t) => seq!['@'] + t + seq![' '],
        None => seq![],
    };
    let sp = match source {
        Some(src) => seq![':'] + src + seq![' '],
        None => seq![],
    };
    let tr = match trailing {
        Some(t) => seq![' ', ':'] + t,
        None => seq![],
    };
    let r = command + join_middles(middles) + tr;
    let s = compose_message(tags, source, command, middles, trailing);
    assert(s =~= tp + sp + r);
    assert(r[0] == command[0]);
    assert(command[0] != ' ') by {
        if command[0] == ' ' {
            assert(command.contains(' '));
        }
    }
    lemma_composed_head(tp, sp, r, tags, source);
    let b: int = tp.len() as int + sp.len();
    let c: int = b + command.len();
    assert(s.subrange(b, c) =~= command);
    lemma_word_in(s, b, command);
    assert(c == s.len() || s[c] == ' ') by {
        if middles.len() > 0 {
            assert(join_middles(middles)[0] == ' ');
            assert(s[c] == join_middles(middles)[0]);
        } else {
            assert(join_middles(middles) =~= Seq::<char>::empty());
            if trailing is Some {
                assert(s[c] == tr[0]);
            }
        }
    }
    lemma_find_char_at(s, b, c, ' ');
    let pre = tp + sp + command;
    assert(s =~= pre + join_middles(middles) + tr);
    lemma_tail_compose(pre, middles, trailing);
    if let Some(t) = tags {
        assert(s.subrange(1, tp.len() - 1) =~= t);
    }
    if let Some(src) = source {
        assert(s.subrange(tp.len() as int + 1, b - 1) =~= src);
    }
}


/// Escaped values hold no `;`, space, CR or LF, and are empty only for the empty value.
pub proof fn lemma_escape_clean(s: Seq<char>)
    ensures
        !escape_spec(s).contains(';'),
        !escape_spec(s).contains(' '),
        !escape_spec(s).contains('\r'),
        !escape_spec(s).contains('\n'),
        escape_spec(s).len() >= s.len(),
    decreases s.len(),
{
    if s.len() > 0 {
        let r = s.drop_first();
        lemma_escape_clean(r);
        let e = escape_char(s[0]);
        let x = escape_spec(s);
        assert(x == e + escape_spec(r));
        assert forall|c: char| c == ';' || c == ' ' || c == '\r' || c == '\n' implies !x.contains(c) by {
            if x.contains(c) {
                let i = choose|i: int| 0 <= i < x.len() && x[i] == c;
                if i >= e.len() {
                    assert(escape_spec(r)[i - e.len()] == c);
                }
            }
        }
    }
}

/// A tag written with an escaped value is read back with that value: for a valid key name
/// and a non-empty value, the tags string `key=escape(value)` parses to the one tag `key`
/// holding exactly `value`, with no prefix and no vendor.
pub proof fn lemma_tag_value_roundtrip(key: Seq<char>, value: Seq<char>)
    requires
        valid_key_name(key),
        value.len() > 0,
    ensures
        spec_parse_tags(key + seq!['='] + escape_spec(value)) == Some(
            Map::<Seq<char>, TagView>::empty().insert(
                key,
                TagView {
                    client_prefix: None,
                    key,
                    key_name: key,
                    value: Some(value),
                    vendor: None,
                },
            ),
        ),
{
    let ev = escape_spec(value);
    let s = key + seq!['='] + ev;
    let n = key.len() as int;
    lemma_escape_clean(value);
    lemma_unescape_escape(value);
    assert forall|k: int| 0 <= k < n implies s[k] != ';' && s[k] != '=' && s[k] != '/' && s[k] != '+' by {
        assert(s[k] == key[k]);
        assert(is_key_name_char(key[k]));
    }
    assert forall|k: int| n < k < s.len() implies s[k] != ';' by {
        assert(s[k] == ev[k - n - 1]);
        if s[k] == ';' {
            assert(ev.contains(';'));
        }
    }
    lemma_find_char_at(s, 0, s.len() as int, ';');
    assert(s.subrange(0, s.len() as int) =~= s);
    lemma_find_char_at(s, 0, n, '=');
    assert(s[0] != '+');
    lemma_find_eq_or_slash(s, 0);
    assert(find_eq_or_slash(s, 0) == n) by {
        let f = find_eq_or_slash(s, 0);
        assert(s[n] == '=');
        if f < n {
            assert(s[f] == '=' || s[f] == '/');
        }
    }
    assert(s.subrange(0, n) =~= key);
    assert(s.subrange(n + 1, s.len() as int) =~= ev);
    let t = TagView { client_prefix: None, key, key_name: key, value: Some(value), vendor: None };
    assert(segment_tag(s) == Some(t));
    let m = Map::<Seq<char>, TagView>::empty().insert(key, t);
    assert(tags_from(s, 0, Map::empty()) == m);
    assert(m.dom().contains(key));
}


proof fn lemma_shift_find_char(pre: Seq<char>, s: Seq<char>, i: int, c: char)
    requires
        0 <= i <= s.len(),
    ensures
        find_char(pre + s, i + pre.len(), c) == find_char(s, i, c) + pre.len(),
    decreases s.len() - i,
{
    let s2 = pre + s;
    if i < s.len() {
        assert(s2[i + pre.len()] == s[i]);
        lemma_shift_find_char(pre, s, i + 1, c);
    }
}

proof fn lemma_shift_skip_spaces(pre: Seq<char>, s: Seq<char>, i: int)
    requires
        0 <= i <= s.len(),
    ensures
        skip_spaces(pre + s, i + pre.len()) == skip_spaces(s, i) + pre.len(),
    decreases s.len() - i,
{
    let s2 = pre + s;
    if i < s.len() {
        assert(s2[i + pre.len()] == s[i]);
        lemma_shift_skip_spaces(pre, s, i + 1);
    }
}

proof fn lemma_shift_head_field(pre: Seq<char>, s: Seq<char>, i: int, marker: char)
    requires
        0 <= i <= s.len(),
    ensures
        head_field(pre + s, i + pre.len(), marker) == match head_field(s, i, marker) {
            Some(f) => Some((f.0 + pre.len(), f.1 + pre.len(), f.2 + pre.len())),
            None => None,
        },
{
    let s2 = pre + s;
    if i < s.len() {
        assert(s2[i + pre.len()] == s[i]);
        if s[i] == marker {
            lemma_shift_find_char(pre, s, i + 1, ' ');
            lemma_find_char(s, i + 1, ' ');
            let e = find_char(s, i + 1, ' ');
            lemma_shift_skip_spaces(pre, s, e);
        }
    }
}

proof fn lemma_shift_tail_params(pre: Seq<char>, s: Seq<char>, i: int)
    requires
        0 <= i <= s.len(),
    ensures
        tail_params(pre + s, i + pre.len()) == tail_params(s, i),
    decreases s.len() - i,
{
    let s2 = pre + s;
    let n = pre.len() as int;
    lemma_shift_skip_spaces(pre, s, i);
    lemma_skip_spaces(s, i);
    let j = skip_spaces(s, i);
    if j < s.len() {
        assert(s2[j + n] == s[j]);
        if s[j] == ':' {
            assert(s2.subrange(j + n + 1, s2.len() as int) =~= s.subrange(j + 1, s.len() as int));
        } else {
            lemma_shift_find_char(pre, s, j, ' ');
            lemma_find_char(s, j, ' ');
            let e = find_char(s, j, ' ');
            lemma_shift_tail_params(pre, s, e);
            assert(s2.subrange(j + n, e + n) =~= s.subrange(j, e));
        }
    }
}

/// How `pre + s` parses from the start of the command of `s` on, given that the head of
/// `pre + s` ends where the head of `s` ends, shifted by the prefix.
proof fn lemma_shift_rest(pre: Seq<char>, s: Seq<char>)
    requires
        skip_spaces(s, 0) < s.len(),
    ensures
        head_field(pre + s, after_tags(s) + pre.len(), ':') == match head_field(s, after_tags(s), ':') {
            Some(f) => Some((f.0 + pre.len(), f.1 + pre.len(), f.2 + pre.len())),
            None => None,
        },
        find_char(pre + s, command_start(s) + pre.len(), ' ') == find_char(s, command_start(s), ' ') + pre.len(),
        tail_params(pre + s, find_char(s, command_start(s), ' ') + pre.len()) == tail_params(
            s,
            find_char(s, command_start(s), ' '),
        ),
        (pre + s).subrange(command_start(s) + pre.len(), find_char(s, command_start(s), ' ') + pre.len())
            == s.subrange(command_start(s), find_char(s, command_start(s), ' ')),
        head_field(s, after_tags(s), ':') matches Some(f) ==> (pre + s).subrange(f.0 + pre.len(), f.1 + pre.len())
            == s.subrange(f.0, f.1),
{
    let s2 = pre + s;
    let n = pre.len() as int;
    let i0 = skip_spaces(s, 0);
    lemma_skip_spaces(s, 0);
    lemma_head_field(s, i0, '@');
    let i1 = after_tags(s);
    lemma_shift_head_field(pre, s, i1, ':');
    lemma_head_field(s, i1, ':');
    let c = command_start(s);
    lemma_shift_find_char(pre, s, c, ' ');
    lemma_find_char(s, c, ' ');
    let ce = find_char(s, c, ' ');
    lemma_shift_tail_params(pre, s, ce);
    assert(s2.subrange(c + n, ce + n) =~= s.subrange(c, ce));
    if let Some(f) = head_field(s, i1, ':') {
        assert(s2.subrange(f.0 + n, f.1 + n) =~= s.subrange(f.0, f.1));
    }
}

/// Leading spaces do not matter: a message and the same message after one more leading
/// space parse to the same result.
pub proof fn lemma_leading_space(s: Seq<char>)
    ensures
        spec_parse_message(seq![' '] + s) == spec_parse_message(s),
{
    let pre = seq![' '];
    let s2 = pre + s;
    assert(s2[0] == ' ');
    lemma_shift_skip_spaces(pre, s, 0);
    assert(skip_spaces(s2, 0) == skip_spaces(s2, 1));
    lemma_skip_spaces(s, 0);
    let i0 = skip_spaces(s, 0);
    if i0 < s.len() {
        lemma_shift_head_field(pre, s, i0, '@');
        lemma_head_field(s, i0, '@');
        assert(after_tags(s2) == after_tags(s) + 1);
        lemma_shift_rest(pre, s);
        assert(command_start(s2) == command_start(s) + 1);
        if let Some(f) = head_field(s, i0, '@') {
            assert(s2.subrange(f.0 + 1, f.1 + 1) =~= s.subrange(f.0, f.1));
        }
    }
}

/// A tags field put in front of a message: when `s` parses, holds a word, and its first
/// word does not start with `@`, then `@tags s` (with a tags field that is a word) parses
/// to the message of `s` carrying the tags that [`parse_irc_tags`] reads from the field.
pub proof fn lemma_tags_prefix(tags: Seq<char>, s: Seq<char>)
    requires
        is_word(tags),
        spec_parse_message(s) is Some,
        s[skip_spaces(s, 0)] != '@',
    ensures
        spec_parse_message(seq!['@'] + tags + seq![' '] + s) == Some(
            MessageView { tags: spec_parse_tags(tags), ..spec_parse_message(s).unwrap() },
        ),
{
    let pre = seq!['@'] + tags + seq![' '];
    let s2 = pre + s;
    let n = pre.len() as int;
    let i0 = skip_spaces(s, 0);
    lemma_skip_spaces(s, 0);
    assert(i0 < s.len());
    // The tags field of `pre + s`.
    assert(s2[0] == '@');
    assert(s2[0] != ' ');
    assert(skip_spaces(s2, 0) == 0);
    assert(s2.subrange(1, 1 + tags.len() as int) =~= tags);
    lemma_word_in(s2, 1, tags);
    assert(s2[n - 1] == ' ');
    lemma_find_char_at(s2, 1, n - 1, ' ');
    // The spaces after the field: the one of the prefix, then those leading `s`.
    lemma_shift_skip_spaces(pre, s, 0);
    assert(skip_spaces(s2, n - 1) == skip_spaces(s2, n)) by {
        if s2[n] == ' ' {
        } else {
            assert(skip_spaces(s2, n) == n);
        }
    }
    assert(head_field(s2, 0, '@') == Some((1int, n - 1, i0 + n)));
    assert(after_tags(s2) == i0 + n);
    // In `s` itself there is no tags field.
    assert(head_field(s, i0, '@') is None);
    assert(after_tags(s) == i0);
    lemma_shift_rest(pre, s);
    assert(command_start(s2) == command_start(s) + n);
    assert(s2.subrange(1, n - 1) =~= tags);
}


/// One tag written as `key=escaped value`.
pub open spec fn tag_segment(key: Seq<char>, value: Seq<char>) -> Seq<char> {
    key + seq!['='] + escape_spec(value)
}

/// Tags written one after the other, separated by `;`: `k1=v1;k2=v2;...`.
pub open spec fn tags_string(keys: Seq<Seq<char>>, values: Seq<Seq<char>>) -> Seq<char>
    decreases keys.len(),
{
    if keys.len() == 0 {
        seq![]
    } else if keys.len() == 1 {
        tag_segment(keys[0], values[0])
    } else {
        tag_segment(keys[0], values[0]) + seq![';'] + tags_string(keys.drop_first(), values.drop_first())
    }
}

/// The tag `key=value` without prefix and vendor.
pub open spec fn plain_tag(key: Seq<char>, value: Seq<char>) -> TagView {
    TagView { client_prefix: None, key, key_name: key, value: Some(value), vendor: None }
}

/// `acc` with the tags `keys[i] = values[i]` added in order.
pub open spec fn insert_tags(acc: Map<Seq<char>, TagView>, keys: Seq<Seq<char>>, values: Seq<Seq<char>>) -> Map<Seq<char>, TagView>
    decreases keys.len(),
{
    if keys.len() == 0 {
        acc
    } else {
        insert_tags(acc.insert(keys[0], plain_tag(keys[0], values[0])), keys.drop_first(), values.drop_first())
    }
}

proof fn lemma_segment(key: Seq<char>, value: Seq<char>)
    requires
        valid_key_name(key),
        value.len() > 0,
    ensures
        segment_tag(tag_segment(key, value)) == Some(plain_tag(key, value)),
        !tag_segment(key, value).contains(';'),
        tag_segment(key, value).len() > 0,
{
    let ev = escape_spec(value);
    let s = tag_segment(key, value);
    let n = key.len() as int;
    lemma_escape_clean(value);
    lemma_unescape_escape(value);
    assert forall|k: int| 0 <= k < n implies s[k] != ';' && s[k] != '=' && s[k] != '/' && s[k] != '+' by {
        assert(s[k] == key[k]);
        assert(is_key_name_char(key[k]));
    }
    assert forall|k: int| n < k < s.len() implies s[k] != ';' by {
        assert(s[k] == ev[k - n - 1]);
        if s[k] == ';' {
            assert(ev.contains(';'));
        }
    }
    assert(!s.contains(';')) by {
        if s.contains(';') {
            let k = choose|k: int| 0 <= k < s.len() && s[k] == ';';
            assert(k != n);
        }
    }
    lemma_find_char_at(s, 0, n, '=');
    assert(s[0] != '+');
    lemma_find_eq_or_slash(s, 0);
    assert(find_eq_or_slash(s, 0) == n) by {
        let f = find_eq_or_slash(s, 0);
        assert(s[n] == '=');
        if f < n {
            assert(s[f] == '=' || s[f] == '/');
        }
    }
    assert(s.subrange(0, n) =~= key);
    assert(s.subrange(n + 1, s.len() as int) =~= ev);
    assert(segment_tag(s) == Some(plain_tag(key, value)));
}

proof fn lemma_tags_from_segments(
    pre: Seq<char>,
    keys: Seq<Seq<char>>,
    values: Seq<Seq<char>>,
    acc: Map<Seq<char>, TagView>,
)
    requires
        keys.len() > 0,
        keys.len() == values.len(),
        forall|i: int| 0 <= i < keys.len() ==> #[trigger] valid_key_name(keys[i]),
        forall|i: int| 0 <= i < values.len() ==> #[trigger] values[i].len() > 0,
    ensures
        tags_from(pre + tags_string(keys, values), pre.len() as int, acc) == insert_tags(acc, keys, values),
    decreases keys.len(),
{
    let seg = tag_segment(keys[0], values[0]);
    assert(valid_key_name(keys[0]));
    assert(values[0].len() > 0);
    lemma_segment(keys[0], values[0]);
    let p = pre.len() as int;
    let e = p + seg.len();
    let acc2 = acc.insert(keys[0], plain_tag(keys[0], values[0]));
    let rk = keys.drop_first();
    let rv = values.drop_first();
    assert(insert_tags(acc, keys, values) == insert_tags(acc2, rk, rv));
    if keys.len() == 1 {
        let s = pre + seg;
        assert(tags_string(keys, values) == seg);
        assert forall|k: int| p <= k < s.len() implies s[k] != ';' by {
            assert(s[k] == seg[k - p]);
            if s[k] == ';' {
                assert(seg.contains(';'));
            }
        }
        lemma_find_char_at(s, p, s.len() as int, ';');
        assert(s.subrange(p, s.len() as int) =~= seg);
        assert(rk.len() == 0);
        assert(insert_tags(acc2, rk, rv) == acc2);
    } else {
        let rest = tags_string(rk, rv);
        let s = pre + tags_string(keys, values);
        assert(s =~= pre + seg + seq![';'] + rest);
        assert forall|k: int| p <= k < e implies s[k] != ';' by {
            assert(s[k] == seg[k - p]);
            if s[k] == ';' {
                assert(seg.contains(';'));
            }
        }
        assert(s[e] == ';');
        lemma_find_char_at(s, p, e, ';');
        assert(s.subrange(p, e) =~= seg);
        let pre2 = pre + seg + seq![';'];
        assert(s =~= pre2 + rest);
        assert forall|i: int| 0 <= i < rk.len() implies #[trigger] valid_key_name(rk[i]) by {
            assert(rk[i] == keys[i + 1]);
        }
        assert forall|i: int| 0 <= i < rv.len() implies #[trigger] rv[i].len() > 0 by {
            assert(rv[i] == values[i + 1]);
        }
        lemma_tags_from_segments(pre2, rk, rv, acc2);
        assert(pre2.len() == e + 1);
    }
}

proof fn lemma_insert_tags_contents(
    acc: Map<Seq<char>, TagView>,
    keys: Seq<Seq<char>>,
    values: Seq<Seq<char>>,
)
    requires
        keys.len() == values.len(),
        forall|i: int, j: int| 0 <= i < j < keys.len() ==> keys[i] != keys[j],
    ensures
        forall|k: Seq<char>|
            #[trigger] insert_tags(acc, keys, values).dom().contains(k) <==> (acc.dom().contains(k)
                || keys.contains(k)),
        forall|i: int|
            0 <= i < keys.len() ==> #[trigger] insert_tags(acc, keys, values)[keys[i]] == plain_tag(
                keys[i],
                values[i],
            ),
        forall|k: Seq<char>|
            acc.dom().contains(k) && !keys.contains(k) ==> #[trigger] insert_tags(acc, keys, values)[k]
                == acc[k],
    decreases keys.len(),
{
    if keys.len() > 0 {
        let acc2 = acc.insert(keys[0], plain_tag(keys[0], values[0]));
        let rk = keys.drop_first();
        let rv = values.drop_first();
        assert forall|i: int, j: int| 0 <= i < j < rk.len() implies rk[i] != rk[j] by {
            assert(rk[i] == keys[i + 1] && rk[j] == keys[j + 1]);
        }
        lemma_insert_tags_contents(acc2, rk, rv);
        let m = insert_tags(acc, keys, values);
        assert(m == insert_tags(acc2, rk, rv));
        assert(!rk.contains(keys[0])) by {
            if rk.contains(keys[0]) {
                let j = choose|j: int| 0 <= j < rk.len() && rk[j] == keys[0];
                assert(keys[j + 1] == keys[0]);
            }
        }
        assert forall|k: Seq<char>| m.dom().contains(k) <==> (acc.dom().contains(k) || keys.contains(k)) by {
            if rk.contains(k) {
                let j = choose|j: int| 0 <= j < rk.len() && rk[j] == k;
                assert(keys[j + 1] == k);
            }
            if keys.contains(k) && k != keys[0] {
                let j = choose|j: int| 0 <= j < keys.len() && keys[j] == k;
                assert(rk[j - 1] == k);
            }
            if k == keys[0] {
                assert(keys[0] == keys[0]);
                assert(keys.contains(k));
            }
        }
        assert forall|i: int| 0 <= i < keys.len() implies #[trigger] m[keys[i]] == plain_tag(keys[i], values[i]) by {
            if i > 0 {
                assert(rk[i - 1] == keys[i] && rv[i - 1] == values[i]);
            }
        }
        assert forall|k: Seq<char>| acc.dom().contains(k) && !keys.contains(k) implies #[trigger] m[k] == acc[k] by {
            if rk.contains(k) {
                let j = choose|j: int| 0 <= j < rk.len() && rk[j] == k;
                assert(keys[j + 1] == k);
            }
            if k == keys[0] {
                assert(keys.contains(k));
            }
        }
    }
}

/// Every tag of a tags string comes back, wherever in the string it stands: for tags
/// `k1=v1;...;kn=vn` with valid, distinct key names and non-empty values written escaped,
/// the parsed map holds exactly the keys `k1 .. kn`, each with its own value and no prefix
/// or vendor.
pub proof fn lemma_tags_string_roundtrip(keys: Seq<Seq<char>>, values: Seq<Seq<char>>)
    requires
        keys.len() > 0,
        keys.len() == values.len(),
        forall|i: int| 0 <= i < keys.len() ==> #[trigger] valid_key_name(keys[i]),
        forall|i: int| 0 <= i < values.len() ==> #[trigger] values[i].len() > 0,
        forall|i: int, j: int| 0 <= i < j < keys.len() ==> keys[i] != keys[j],
    ensures
        spec_parse_tags(tags_string(keys, values)) is Some,
        forall|k: Seq<char>|
            #[trigger] spec_parse_tags(tags_string(keys, values)).unwrap().dom().contains(k)
                <==> keys.contains(k),
        forall|i: int|
            0 <= i < keys.len() ==> #[trigger] spec_parse_tags(tags_string(keys, values)).unwrap()[keys[i]]
                == plain_tag(keys[i], values[i]),
{
    let s = tags_string(keys, values);
    let e = Seq::<char>::empty();
    assert(e + s =~= s);
    lemma_tags_from_segments(e, keys, values, Map::empty());
    lemma_insert_tags_contents(Map::empty(), keys, values);
    let m = tags_from(s, 0, Map::empty());
    assert(m == insert_tags(Map::empty(), keys, values));
    assert(keys.contains(keys[0]));
    assert(m.dom().contains(keys[0]));
    assert(m.dom() != Set::<Seq<char>>::empty());
}

} // verus!
