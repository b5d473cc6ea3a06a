//! Markup cleaning: embedded-media-link removal, hashtag removal,
//! whitespace trimming, and truncation to the maximum unit length.
//!
//! An embedded-media link has the shape `![...](...)`, where neither part
//! may span a line break and both parts are as short as possible; removal
//! scans left to right and removes every such link.

use vstd::prelude::*;

use crate::strutil::{chars_of, is_ws, is_ws_char, string_from_chars};
use crate::MAX_TOKEN_LENGTH;

verus! {

/// `s` without its `'#'` characters.
pub open spec fn strip_hash(s: Seq<char>) -> Seq<char>
    decreases s.len(),
{
    if s.len() == 0 {
        Seq::empty()
    } else {
        strip_hash(s.drop_last()) + (if s.last() == '#' {
            Seq::<char>::empty()
        } else {
            seq![s.last()]
        })
    }
}

/// `s` without leading whitespace.
pub open spec fn trim_start(s: Seq<char>) -> Seq<char>
    decreases s.len(),
{
    if s.len() == 0 {
        s
    } else if is_ws_char(s[0]) {
        trim_start(s.drop_first())
    } else {
        s
    }
}

/// `s` without trailing whitespace.
pub open spec fn trim_end(s: Seq<char>) -> Seq<char>
    decreases s.len(),
{
    if s.len() == 0 {
        s
    } else if is_ws_char(s.last()) {
        trim_end(s.drop_last())
    } else {
        s
    }
}

/// `s` without leading and trailing whitespace, as `str::trim` returns it.
pub open spec fn trim_spec(s: Seq<char>) -> Seq<char> {
    trim_end(trim_start(s))
}

/// The first position `j >= i` where `"]("` begins, scanning over
/// characters of the current line only (a line break ends the scan).
pub open spec fn find_rb(s: Seq<char>, i: int) -> Option<int>
    decreases s.len() - i,
        when 0 <= i
{
    if i + 1 >= s.len() {
        None
    } else if s[i] == '\n' {
        None
    } else if s[i] == ']' && s[i + 1] == '(' {
        Some(i)
    } else {
        find_rb(s, i + 1)
    }
}

/// The first position `k >= i` holding `')'`, scanning over characters of
/// the current line only.
pub open spec fn find_rp(s: Seq<char>, i: int) -> Option<int>
    decreases s.len() - i,
        when 0 <= i
{
    if i >= s.len() {
        None
    } else if s[i] == '\n' {
        None
    } else if s[i] == ')' {
        Some(i)
    } else {
        find_rp(s, i + 1)
    }
}

proof fn lemma_find_rb_bounds(s: Seq<char>, i: int)
    requires
        0 <= i,
        find_rb(s, i) is Some,
    ensures
        i <= find_rb(s, i)->Some_0,
        find_rb(s, i)->Some_0 + 1 < s.len(),
    decreases s.len() - i,
{
    if i + 1 >= s.len() {
    } else if s[i] == '\n' {
    } else if s[i] == ']' && s[i + 1] == '(' {
    } else {
        lemma_find_rb_bounds(s, i + 1);
    }
}

proof fn lemma_find_rp_bounds(s: Seq<char>, i: int)
    requires
        0 <= i,
        find_rp(s, i) is Some,
    ensures
        i <= find_rp(s, i)->Some_0,
        find_rp(s, i)->Some_0 < s.len(),
    decreases s.len() - i,
{
    if i >= s.len() {
    } else if s[i] == '\n' {
    } else if s[i] == ')' {
    } else {
        lemma_find_rp_bounds(s, i + 1);
    }
}

/// The exclusive end of the embedded-media link beginning at `i`, if one does.
pub open spec fn link_end_at(s: Seq<char>, i: int) -> Option<int> {
    if 0 <= i && i + 1 < s.len() && s[i] == '!' && s[i + 1] == '[' {
        match find_rb(s, i + 2) {
            Some(j) => match find_rp(s, j + 2) {
                Some(k) => Some(k + 1),
                None => None,
            },
            None => None,
        }
    } else {
        None
    }
}

proof fn lemma_link_end_bounds(s: Seq<char>, i: int)
    requires
        link_end_at(s, i) is Some,
    ensures
        i + 5 <= link_end_at(s, i)->Some_0 <= s.len(),
{
    let j = find_rb(s, i + 2)->Some_0;
    lemma_find_rb_bounds(s, i + 2);
    lemma_find_rp_bounds(s, j + 2);
}

/// `s` from position `i` on, with every embedded-media link removed,
/// scanning left to right.
pub open spec fn strip_links_from(s: Seq<char>, i: int) -> Seq<char>
    decreases s.len() - i,
        when 0 <= i
        via strip_links_from_dec
{
    if i >= s.len() {
        Seq::empty()
    } else {
        match link_end_at(s, i) {
            Some(e) => strip_links_from(s, e),
            None => seq![s[i]] + strip_links_from(s, i + 1),
        }
    }
}

#[via_fn]
proof fn strip_links_from_dec(s: Seq<char>, i: int) {
    if 0 <= i && i < s.len() {
        if link_end_at(s, i) is Some {
            lemma_link_end_bounds(s, i);
        }
    }
}

/// `s` with every embedded-media link removed.
pub open spec fn strip_links_spec(s: Seq<char>) -> Seq<char> {
    strip_links_from(s, 0)
}

/// The cleaned form of `s`: hashtags removed, embedded-media links removed,
/// whitespace trimmed, and the result truncated to `MAX_TOKEN_LENGTH`
/// characters.
pub open spec fn clean_spec(s: Seq<char>) -> Seq<char> {
    let t = trim_spec(strip_links_spec(strip_hash(s)));
    if t.len() > MAX_TOKEN_LENGTH as int {
        t.take(MAX_TOKEN_LENGTH as int)
    } else {
        t
    }
}

/// A string on which every cleaning stage is a no-op: it holds no hashtag,
/// holds no embedded-media link, carries no leading or trailing whitespace,
/// and fits within the maximum unit length.
pub open spec fn is_cleaned(s: Seq<char>) -> bool {
    &&& strip_hash(s) == s
    &&& strip_links_spec(s) == s
    &&& trim_spec(s) == s
    &&& s.len() <= MAX_TOKEN_LENGTH as int
}

/// Cleaning idempotence: cleaning an already-cleaned string returns it
/// unchanged.
pub proof fn lemma_clean_idempotent(s: Seq<char>)
    requires
        is_cleaned(s),
    ensures
        clean_spec(s) == s,
{
}

pub(crate) fn strip_hash_chars(s: &Vec<char>) -> (out: Vec<char>)
    ensures
        out@ == strip_hash(s@),
{
    let mut out: Vec<char> = Vec::new();
    let mut i: usize = 0;
    while i < s.len()
        invariant
            i <= s.len(),
            out@ == strip_hash(s@.take(i as int)),
        decreases s.len() - i,
    {
        let c = s[i];
        proof {
            assert(s@.take(i + 1).drop_last() =~= s@.take(i as int));
            assert(s@.take(i + 1).last() == s@[i as int]);
        }
        if c != '#' {
            out.push(c);
            proof {
                assert(out@ =~= strip_hash(s@.take(i + 1)));
            }
        } else {
            proof {
                assert(out@ =~= strip_hash(s@.take(i + 1)));
            }
        }
        i = i + 1;
    }
    proof {
        assert(s@.take(s@.len() as int) =~= s@);
    }
    out
}

pub(crate) fn trim_chars(s: &Vec<char>) -> (out: Vec<char>)
    ensures
        out@ == trim_spec(s@),
{
    proof {
        assert(s@.skip(0) =~= s@);
    }
    let mut lo: usize = 0;
    while lo < s.len() && is_ws(s[lo])
        invariant
            lo <= s.len(),
            trim_start(s@) == trim_start(s@.skip(lo as int)),
        decreases s.len() - lo,
    {
        proof {
            assert(s@.skip(lo as int).len() > 0);
            assert(s@.skip(lo as int)[0] == s@[lo as int]);
            assert(s@.skip(lo as int).drop_first() =~= s@.skip(lo + 1));
        }
        lo = lo + 1;
    }
    proof {
        if lo < s.len() {
            assert(s@.skip(lo as int)[0] == s@[lo as int]);
            assert(trim_start(s@.skip(lo as int)) == s@.skip(lo as int));
        } else {
            assert(s@.skip(lo as int) =~= Seq::<char>::empty());
            assert(trim_start(s@.skip(lo as int)) == s@.skip(lo as int));
        }
    }
    let ghost t = s@.skip(lo as int);
    proof {
        assert(t.take(s@.len() - lo as int) =~= t);
    }
    let mut hi: usize = s.len();
    while hi > lo && is_ws(s[hi - 1])
        invariant
            lo <= hi <= s.len(),
            t == s@.skip(lo as int),
            trim_start(s@) == t,
            trim_end(t) == trim_end(t.take(hi - lo as int)),
        decreases hi,
    {
        proof {
            let u = t.take(hi - lo as int);
            assert(u.len() > 0);
            assert(u.last() == s@[hi - 1]);
            assert(u.drop_last() =~= t.take(hi - 1 - lo as int));
        }
        hi = hi - 1;
    }
    proof {
        let u = t.take(hi - lo as int);
        if hi > lo {
            assert(u.last() == s@[hi - 1]);
            assert(trim_end(u) == u);
        } else {
            assert(u =~= Seq::<char>::empty());
            assert(trim_end(u) == u);
        }
    }
    let mut out: Vec<char> = Vec::new();
    let mut i: usize = lo;
    while i < hi
        invariant
            lo <= i <= hi <= s.len(),
            out@ == s@.subrange(lo as int, i as int),
        decreases hi - i,
    {
        out.push(s[i]);
        proof {
            assert(out@ =~= s@.subrange(lo as int, i + 1));
        }
        i = i + 1;
    }
    proof {
        assert(out@ =~= s@.skip(lo as int).take(hi - lo as int));
    }
    out
}

fn find_rb_exec(s: &Vec<char>, start: usize) -> (r: Option<usize>)
    ensures
        match r {
            Some(j) => find_rb(s@, start as int) == Some(j as int),
            None => find_rb(s@, start as int) is None,
        },
{
    let mut i: usize = start;
    while i < s.len() && i + 1 < s.len() && s[i] != '\n' && !(s[i] == ']' && s[i + 1] == '(')
        invariant
            start <= i,
            find_rb(s@, start as int) == find_rb(s@, i as int),
        decreases s.len() - i,
    {
        i = i + 1;
    }
    if i < s.len() && i + 1 < s.len() && s[i] == ']' && s[i + 1] == '(' {
        Some(i)
    } else {
        None
    }
}

fn find_rp_exec(s: &Vec<char>, start: usize) -> (r: Option<usize>)
    ensures
        match r {
            Some(k) => find_rp(s@, start as int) == Some(k as int),
            None => find_rp(s@, start as int) is None,
        },
{
    let mut i: usize = start;
    while i < s.len() && s[i] != '\n' && s[i] != ')'
        invariant
            start <= i,
            find_rp(s@, start as int) == find_rp(s@, i as int),
        decreases s.len() - i,
    {
        i = i + 1;
    }
    if i < s.len() && s[i] == ')' {
        Some(i)
    } else {
        None
    }
}

fn link_end_at_exec(s: &Vec<char>, i: usize) -> (r: Option<usize>)
    ensures
        match r {
            Some(e) => link_end_at(s@, i as int) == Some(e as int),
            None => link_end_at(s@, i as int) is None,
        },
{
    if i < s.len() && i + 1 < s.len() && s[i] == '!' && s[i + 1] == '[' {
        match find_rb_exec(s, i + 2) {
            Some(j) => {
                proof {
                    lemma_find_rb_bounds(s@, i + 2);
                }
                match find_rp_exec(s, j + 2) {
                    Some(k) => {
                        proof {
                            lemma_find_rp_bounds(s@, j + 2);
                        }
                        Some(k + 1)
                    },
                    None => None,
                }
            },
            None => None,
        }
    } else {
        None
    }
}

pub(crate) fn strip_links_chars(s: &Vec<char>) -> (out: Vec<char>)
    ensures
        out@ == strip_links_spec(s@),
{
    let mut out: Vec<char> = Vec::new();
    let mut i: usize = 0;
    while i < s.len()
        invariant
            i <= s.len(),
            out@ + strip_links_from(s@, i as int) == strip_links_from(s@, 0),
        decreases s.len() - i,
    {
        match link_end_at_exec(s, i) {
            Some(e) => {
                proof {
                    lemma_link_end_bounds(s@, i as int);
                }
                i = e;
            },
            None => {
                out.push(s[i]);
                proof {
                    assert(out@.drop_last() + (seq![s@[i as int]] + strip_links_from(s@, i + 1))
                        =~= out@ + strip_links_from(s@, i + 1));
                }
                i = i + 1;
            },
        }
    }
    proof {
        assert(out@ + strip_links_from(s@, s@.len() as int) =~= out@);
    }
    out
}

pub(crate) fn clean_chars(s: &Vec<char>) -> (out: Vec<char>)
    ensures
        out@ == clean_spec(s@),
{
    let no_hash = strip_hash_chars(s);
    let no_links = strip_links_chars(&no_hash);
    let mut trimmed = trim_chars(&no_links);
    if trimmed.len() > MAX_TOKEN_LENGTH {
        trimmed.truncate(MAX_TOKEN_LENGTH);
    }
    trimmed
}

/// The text with every `'#'` removed.
pub fn remove_hashtags(text: &str) -> (r: String)
    ensures
        r@ == strip_hash(text@),
{
    let v = chars_of(text);
    let out = strip_hash_chars(&v);
    string_from_chars(&out)
}

/// The text with every embedded-media link removed.
pub fn remove_links(text: &str) -> (r: String)
    ensures
        r@ == strip_links_spec(text@),
{
    let v = chars_of(text);
    let out = strip_links_chars(&v);
    string_from_chars(&out)
}

/// The cleaned form of the text: hashtags removed, embedded-media links
/// removed, whitespace trimmed, the result truncated to `MAX_TOKEN_LENGTH`
/// characters.
pub fn clean_text(text: &str) -> (r: String)
    ensures
        r@ == clean_spec(text@),
{
    let v = chars_of(text);
    let out = clean_chars(&v);
    string_from_chars(&out)
}

} // verus!
