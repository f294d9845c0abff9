//! Strings as sequences of characters.
//!
//! Every contract in this crate speaks of a string through its view, a
//! `Seq<char>`. The functions here move between `&str`, `String` and
//! `Vec<char>`, so that the rest of the crate can work on characters by index.

use crate::seqs::{lemma_position_unique, occurs, position};
use vstd::prelude::*;

verus! {

/// `String::push` of the standard library appends the one character `c` to
/// the string and changes nothing else.
pub assume_specification[ String::push ](s: &mut String, c: char)
    ensures
        final(s)@ == old(s)@.push(c),
;

/// The characters of `s`, in order.
pub fn chars_of(s: &str) -> (out: Vec<char>)
    ensures
        out@ == s@,
{
    let mut out: Vec<char> = Vec::new();
    for c in it: s.chars()
        invariant
            out@ == it.seq().take(it.index() as int),
            it.seq() == s@,
    {
        out.push(c);
    }
    out
}

/// The string made of the characters `cs[from..to]`.
pub fn string_of_range(cs: &Vec<char>, from: usize, to: usize) -> (out: String)
    requires
        from <= to <= cs@.len(),
    ensures
        out@ == cs@.subrange(from as int, to as int),
{
    let mut out = String::new();
    let mut i: usize = from;
    while i < to
        invariant
            from <= i <= to <= cs@.len(),
            out@ == cs@.subrange(from as int, i as int),
        decreases to - i,
    {
        out.push(cs[i]);
        i = i + 1;
    }
    out
}

/// The string made of the characters of `cs`.
pub fn string_of(cs: &Vec<char>) -> (out: String)
    ensures
        out@ == cs@,
{
    let out = string_of_range(cs, 0, cs.len());
    assert(cs@.subrange(0, cs@.len() as int) == cs@);
    out
}

/// An optional string in contracts.
pub open spec fn opt_text(s: Option<String>) -> Option<Seq<char>> {
    match s {
        Some(t) => Some(t@),
        None => None,
    }
}

/// An optional string slice in contracts.
pub open spec fn opt_str(s: Option<&str>) -> Option<Seq<char>> {
    match s {
        Some(t) => Some(t@),
        None => None,
    }
}

/// Whether two strings hold the same characters.
pub fn same_text(a: &String, b: &String) -> (r: bool)
    ensures
        r == (a@ == b@),
{
    *a == *b
}

/// A copy of `s`.
pub fn clone_text(s: &String) -> (out: String)
    ensures
        out@ == s@,
{
    s.clone()
}

/// A copy of `s`.
pub fn clone_text_opt(s: &Option<String>) -> (out: Option<String>)
    ensures
        opt_text(out) == opt_text(*s),
{
    match s {
        Some(t) => Some(t.clone()),
        None => None,
    }
}

/// An owned copy of an optional string slice.
pub fn own_text_opt(s: Option<&str>) -> (out: Option<String>)
    ensures
        opt_text(out) == opt_str(s),
{
    match s {
        Some(t) => Some(t.to_owned()),
        None => None,
    }
}

/// The strings of `list` in contracts, in order.
pub open spec fn texts(list: Seq<String>) -> Seq<Seq<char>> {
    Seq::new(list.len(), |i: int| list[i]@)
}

/// Index of the first string of `list` that equals `s`.
pub fn find_text(list: &Vec<String>, s: &String) -> (r: Option<usize>)
    ensures
        match r {
            Some(i) => i < list@.len() && i == position(texts(list@), s@),
            None => !occurs(texts(list@), s@),
        },
{
    let ghost all = texts(list@);
    let mut i: usize = 0;
    while i < list.len()
        invariant
            i <= list@.len(),
            all == texts(list@),
            forall|j: int| 0 <= j < i ==> all[j] != s@,
        decreases list@.len() - i,
    {
        if same_text(&list[i], s) {
            proof {
                lemma_position_unique(all, s@, i as int);
            }
            return Some(i);
        }
        i = i + 1;
    }
    proof {
        lemma_position_unique(all, s@, i as int);
    }
    None
}

/// What `str::to_lowercase` of the standard library makes of `s`: its
/// lowercase form as Unicode defines it.
pub uninterp spec fn lowercase_of(s: Seq<char>) -> Seq<char>;

/// `str::to_lowercase` of the standard library, which depends on nothing but
/// the characters it is given.
#[verifier::external_body]
fn to_lowercase(s: &str) -> (out: String)
    ensures
        out@ == lowercase_of(s@),
{
    s.to_lowercase()
}

/// `s` with every space replaced by an underscore.
pub open spec fn spaces_replaced(s: Seq<char>) -> Seq<char> {
    Seq::new(
        s.len(),
        |i: int|
            if s[i] == ' ' {
                '_'
            } else {
                s[i]
            },
    )
}

/// The form in which a label is kept as a tag: spaces become underscores,
/// then the whole is lowercased.
pub open spec fn normalized_tag(s: Seq<char>) -> Seq<char> {
    lowercase_of(spaces_replaced(s))
}

/// `s` with every space replaced by an underscore.
pub fn replace_spaces(s: &str) -> (out: String)
    ensures
        out@ == spaces_replaced(s@),
{
    let cs = chars_of(s);
    let mut out = String::new();
    let mut i: usize = 0;
    while i < cs.len()
        invariant
            i <= cs@.len(),
            cs@ == s@,
            out@ == spaces_replaced(s@).take(i as int),
        decreases cs@.len() - i,
    {
        let c = cs[i];
        let ghost before = out@;
        if c == ' ' {
            out.push('_');
        } else {
            out.push(c);
        }
        assert(out@ =~= spaces_replaced(s@).take(i + 1));
        i = i + 1;
    }
    assert(spaces_replaced(s@).take(i as int) =~= spaces_replaced(s@));
    out
}

/// The tag that stands for the label `s`.
pub fn normalize_tag(s: &str) -> (out: String)
    ensures
        out@ == normalized_tag(s@),
{
    let spaced = replace_spaces(s);
    to_lowercase(spaced.as_str())
}

/// Whether `s` starts with `prefix`.
pub fn starts_with(s: &str, prefix: &str) -> (r: bool)
    ensures
        r == prefix@.is_prefix_of(s@),
{
    let cs = chars_of(s);
    let ps = chars_of(prefix);
    if cs.len() < ps.len() {
        return false;
    }
    let mut i: usize = 0;
    while i < ps.len()
        invariant
            i <= ps@.len() <= cs@.len(),
            cs@ == s@,
            ps@ == prefix@,
            forall|j: int| 0 <= j < i ==> cs@[j] == ps@[j],
        decreases ps@.len() - i,
    {
        if cs[i] != ps[i] {
            assert(ps@[i as int] != cs@.subrange(0, ps@.len() as int)[i as int]);
            return false;
        }
        i = i + 1;
    }
    assert(ps@ =~= cs@.subrange(0, ps@.len() as int));
    true
}

/// Whether two string slices hold the same characters.
pub fn same_str(a: &str, b: &str) -> (r: bool)
    ensures
        r == (a@ == b@),
{
    let x = a.to_owned();
    let y = b.to_owned();
    same_text(&x, &y)
}

/// The words of `s`, as `str::split_whitespace` of the standard library
/// cuts them: the stretches between white space, in order.
pub uninterp spec fn words_of(s: Seq<char>) -> Seq<Seq<char>>;

/// `str::split_whitespace` of the standard library, each word copied out.
#[verifier::external_body]
pub(crate) fn split_words(s: &str) -> (words: Vec<String>)
    ensures
        texts(words@) == words_of(s@),
{
    s.split_whitespace().map(|w| w.to_string()).collect()
}

/// `c` as a lowercase letter where it is one of `A` to `Z`, else `c` itself.
pub open spec fn lower_ascii(c: char) -> char {
    if 'A' <= c <= 'Z' {
        ((c as u8 + 32) as u8) as char
    } else {
        c
    }
}

/// `c` as a lowercase letter where it is one of `A` to `Z`.
pub fn to_lower_ascii(c: char) -> (out: char)
    ensures
        out == lower_ascii(c),
{
    if 'A' <= c && c <= 'Z' {
        ((c as u8) + 32) as char
    } else {
        c
    }
}

/// Whether `needle` stands in `hay` at the index `k`, the case of the
/// letters `A` to `Z` set aside.
pub open spec fn folded_at(hay: Seq<char>, needle: Seq<char>, k: int) -> bool {
    &&& 0 <= k
    &&& k + needle.len() <= hay.len()
    &&& forall|j: int| 0 <= j < needle.len() ==> lower_ascii(hay[k + j]) == lower_ascii(needle[j])
}

/// Whether `needle` stands somewhere in `hay`, the case of the letters `A`
/// to `Z` set aside. The empty string stands in every string.
pub open spec fn contains_folded(hay: Seq<char>, needle: Seq<char>) -> bool {
    exists|k: int| folded_at(hay, needle, k)
}

/// Whether `needle` stands in `hay` at the index `k`.
fn stands_at(hay: &Vec<char>, needle: &Vec<char>, k: usize) -> (r: bool)
    requires
        k + needle@.len() <= hay@.len(),
    ensures
        r == folded_at(hay@, needle@, k as int),
{
    let len = hay.len();
    let mut j: usize = 0;
    while j < needle.len()
        invariant
            j <= needle@.len(),
            len == hay@.len(),
            k + needle@.len() <= hay@.len(),
            forall|i: int| 0 <= i < j ==> lower_ascii(hay@[k + i]) == lower_ascii(needle@[i]),
        decreases needle@.len() - j,
    {
        if to_lower_ascii(hay[k + j]) != to_lower_ascii(needle[j]) {
            return false;
        }
        j = j + 1;
    }
    true
}

/// Whether `needle` stands somewhere in `hay`, the case of the letters `A`
/// to `Z` set aside.
pub fn contains_ignoring_case(hay: &str, needle: &str) -> (r: bool)
    ensures
        r == contains_folded(hay@, needle@),
{
    let h = chars_of(hay);
    let n = chars_of(needle);
    if n.len() > h.len() {
        return false;
    }
    let last = h.len() - n.len();
    let mut k: usize = 0;
    loop
        invariant
            k <= last,
            last == h@.len() - n@.len(),
            h@ == hay@,
            n@ == needle@,
            forall|i: int| 0 <= i < k ==> !folded_at(hay@, needle@, i),
        decreases last - k,
    {
        if stands_at(&h, &n, k) {
            return true;
        }
        if k == last {
            return false;
        }
        k = k + 1;
    }
}

} // verus!
