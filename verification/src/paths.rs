//! Path strings and their mathematical model.
//!
//! Paths are plain strings whose segments are separated by `/`. This module
//! defines the spec-level vocabulary the rest of the crate states its
//! contracts in — prefixes, parents, joins — together with verified
//! executable helpers over `&str` and `String`.

use vstd::prelude::*;

verus! {

/// True when `p` begins with `prefix`.
pub open spec fn seq_starts_with(p: Seq<char>, prefix: Seq<char>) -> bool {
    p.len() >= prefix.len() && p.take(prefix.len() as int) == prefix
}

/// `dir`, a separator, then `name`.
pub open spec fn spec_join(dir: Seq<char>, name: Seq<char>) -> Seq<char> {
    dir + seq!['/'] + name
}

/// True when `p` lies strictly below the directory `d`.
pub open spec fn is_under(p: Seq<char>, d: Seq<char>) -> bool {
    seq_starts_with(p, d + seq!['/'])
}

/// Index of the last occurrence of `c` in `p`, or -1 when there is none.
pub open spec fn last_pos(p: Seq<char>, c: char) -> int
    decreases p.len(),
{
    if p.len() == 0 {
        -1
    } else if p[p.len() - 1] == c {
        p.len() - 1
    } else {
        last_pos(p.drop_last(), c)
    }
}

/// Index of the first occurrence of `c` in `p`, or -1 when there is none.
pub open spec fn first_pos(p: Seq<char>, c: char) -> int
    decreases p.len(),
{
    if p.len() == 0 {
        -1
    } else if p[0] == c {
        0
    } else if first_pos(p.skip(1), c) < 0 {
        -1
    } else {
        first_pos(p.skip(1), c) + 1
    }
}

/// An occurrence of `c` before which `c` never occurs is the first one.
pub proof fn lemma_first_pos_at(p: Seq<char>, c: char, i: int)
    requires
        0 <= i < p.len(),
        p[i] == c,
        forall|j: int| 0 <= j < i ==> p[j] != c,
    ensures
        first_pos(p, c) == i,
    decreases i,
{
    if i == 0 {
    } else {
        assert forall|j: int| 0 <= j < i - 1 implies p.skip(1)[j] != c by {
            assert(p.skip(1)[j] == p[j + 1]);
        }
        assert(p.skip(1)[i - 1] == p[i]);
        lemma_first_pos_at(p.skip(1), c, i - 1);
    }
}

/// A sequence without `c` has `first_pos` -1.
pub proof fn lemma_no_char_first(p: Seq<char>, c: char)
    requires
        forall|j: int| 0 <= j < p.len() ==> p[j] != c,
    ensures
        first_pos(p, c) == -1,
    decreases p.len(),
{
    if p.len() > 0 {
        assert forall|j: int| 0 <= j < p.skip(1).len() implies p.skip(1)[j] != c by {
            assert(p.skip(1)[j] == p[j + 1]);
        }
        lemma_no_char_first(p.skip(1), c);
    }
}

/// Index of the last separator in `p`, or -1 when `p` has none.
pub open spec fn last_slash(p: Seq<char>) -> int {
    last_pos(p, '/')
}

/// Everything before the last separator; empty when there is none.
pub open spec fn parent_of(p: Seq<char>) -> Seq<char> {
    if last_slash(p) >= 0 {
        p.take(last_slash(p))
    } else {
        Seq::empty()
    }
}

/// `last_pos` is a valid index of `c`, and no later position holds `c`.
pub proof fn lemma_last_pos(p: Seq<char>, c: char)
    ensures
        -1 <= last_pos(p, c) < p.len(),
        last_pos(p, c) >= 0 ==> p[last_pos(p, c)] == c,
        forall|j: int| last_pos(p, c) < j < p.len() ==> p[j] != c,
    decreases p.len(),
{
    if p.len() == 0 {
    } else if p[p.len() - 1] == c {
    } else {
        lemma_last_pos(p.drop_last(), c);
        assert forall|j: int| last_pos(p, c) < j < p.len() implies p[j] != c by {
            if j < p.len() - 1 {
                assert(p.drop_last()[j] == p[j]);
            }
        }
    }
}

/// An occurrence of `c` after which `c` never occurs again is the last one.
pub proof fn lemma_last_pos_at(p: Seq<char>, c: char, i: int)
    requires
        0 <= i < p.len(),
        p[i] == c,
        forall|j: int| i < j < p.len() ==> p[j] != c,
    ensures
        last_pos(p, c) == i,
    decreases p.len(),
{
    if p[p.len() - 1] == c {
        assert(i == p.len() - 1);
    } else {
        lemma_last_pos_at(p.drop_last(), c, i);
    }
}

/// A sequence without `c` has `last_pos` -1.
pub proof fn lemma_no_char(p: Seq<char>, c: char)
    requires
        forall|j: int| 0 <= j < p.len() ==> p[j] != c,
    ensures
        last_pos(p, c) == -1,
    decreases p.len(),
{
    if p.len() > 0 {
        lemma_no_char(p.drop_last(), c);
    }
}

/// A path whose parent is `d` starts with `d` followed by a separator.
pub proof fn lemma_child_is_under(c: Seq<char>, d: Seq<char>)
    requires
        parent_of(c) == d,
        last_slash(c) >= 0,
    ensures
        is_under(c, d),
        c.len() > d.len(),
{
    lemma_last_pos(c, '/');
    assert(c.take(d.len() as int + 1) =~= d + seq!['/']);
}

/// Being under a directory is transitive.
pub proof fn lemma_under_transitive(c: Seq<char>, m: Seq<char>, s: Seq<char>)
    requires
        is_under(c, m),
        is_under(m, s),
    ensures
        is_under(c, s),
{
    assert(c.take(s.len() as int + 1) =~= s + seq!['/']);
}

/// Two prefixes of one path are ordered by length: the shorter is a prefix of
/// the longer.
pub proof fn lemma_prefix_comparable(p: Seq<char>, a: Seq<char>, b: Seq<char>)
    requires
        seq_starts_with(p, a),
        seq_starts_with(p, b),
        a.len() <= b.len(),
    ensures
        seq_starts_with(b, a),
{
    assert(b.take(a.len() as int) =~= a);
}

/// Compares two strings character by character.
pub fn str_eq(a: &str, b: &str) -> (r: bool)
    ensures
        r == (a@ == b@),
{
    let a_len = a.unicode_len();
    let b_len = b.unicode_len();
    if a_len != b_len {
        return false;
    }
    let mut i: usize = 0;
    while i < a_len
        invariant
            0 <= i <= a_len,
            a_len == a@.len(),
            a_len == b@.len(),
            forall|j: int| 0 <= j < i ==> a@[j] == b@[j],
        decreases a_len - i,
    {
        if a.get_char(i) != b.get_char(i) {
            return false;
        }
        i = i + 1;
    }
    proof {
        assert(a@ =~= b@);
    }
    true
}

/// Tests whether `s` begins with `prefix`, character by character.
pub fn str_starts_with(s: &str, prefix: &str) -> (r: bool)
    ensures
        r == seq_starts_with(s@, prefix@),
{
    let s_len = s.unicode_len();
    let p_len = prefix.unicode_len();
    if s_len < p_len {
        return false;
    }
    let mut i: usize = 0;
    while i < p_len
        invariant
            0 <= i <= p_len,
            p_len == prefix@.len(),
            s_len == s@.len(),
            p_len <= s_len,
            forall|j: int| 0 <= j < i ==> s@[j] == prefix@[j],
        decreases p_len - i,
    {
        if s.get_char(i) != prefix.get_char(i) {
            return false;
        }
        i = i + 1;
    }
    proof {
        assert(s@.take(p_len as int) =~= prefix@);
    }
    true
}

/// Finds the index of the first occurrence of `c` in `s`.
pub fn find_char(s: &str, c: char) -> (r: Option<usize>)
    ensures
        match r {
            Some(i) => first_pos(s@, c) == i && i < s@.len() && s@[i as int] == c,
            None => first_pos(s@, c) == -1,
        },
{
    let len = s.unicode_len();
    let mut i: usize = 0;
    while i < len
        invariant
            0 <= i <= len,
            len == s@.len(),
            forall|j: int| 0 <= j < i ==> s@[j] != c,
        decreases len - i,
    {
        if s.get_char(i) == c {
            proof {
                lemma_first_pos_at(s@, c, i as int);
            }
            return Some(i);
        }
        i = i + 1;
    }
    proof {
        lemma_no_char_first(s@, c);
    }
    None
}

/// Finds the index of the last occurrence of `c` in `s`.
pub fn rfind_char(s: &str, c: char) -> (r: Option<usize>)
    ensures
        match r {
            Some(i) => last_pos(s@, c) == i && i < s@.len() && s@[i as int] == c,
            None => last_pos(s@, c) == -1,
        },
{
    let len = s.unicode_len();
    let mut i: usize = len;
    while i > 0
        invariant
            0 <= i <= len,
            len == s@.len(),
            forall|j: int| i <= j < len ==> s@[j] != c,
        decreases i,
    {
        if s.get_char(i - 1) == c {
            proof {
                lemma_last_pos_at(s@, c, i - 1);
            }
            return Some(i - 1);
        }
        i = i - 1;
    }
    proof {
        lemma_no_char(s@, c);
    }
    None
}

/// Relies on String::push: it appends exactly the one character.
#[verifier::external_body]
pub fn push_char(s: &mut String, c: char)
    ensures
        final(s)@ == old(s)@.push(c),
{
    s.push(c);
}

/// Builds `dir`, a separator, then `name`.
pub fn join_paths(dir: &str, name: &str) -> (r: String)
    ensures
        r@ == spec_join(dir@, name@),
{
    let mut out = dir.to_owned();
    out.append("/");
    out.append(name);
    proof {
        reveal_strlit("/");
        assert(out@ =~= spec_join(dir@, name@));
    }
    out
}

/// Copies the characters of `s` from position `from` to the end.
pub fn tail_from(s: &str, from: usize) -> (r: String)
    requires
        from <= s@.len(),
    ensures
        r@ == s@.skip(from as int),
{
    let len = s.unicode_len();
    let sub = s.substring_char(from, len);
    let r = sub.to_owned();
    proof {
        assert(r@ =~= s@.skip(from as int));
    }
    r
}

/// The parent directory of `p`: everything before the last separator, or the
/// empty string when `p` has no separator.
pub fn parent_dir(p: &str) -> (r: String)
    ensures
        r@ == parent_of(p@),
{
    let len = p.unicode_len();
    let mut i: usize = len;
    while i > 0
        invariant
            0 <= i <= len,
            len == p@.len(),
            forall|j: int| i <= j < len ==> p@[j] != '/',
        decreases i,
    {
        if p.get_char(i - 1) == '/' {
            let sub = p.substring_char(0, i - 1);
            let r = sub.to_owned();
            proof {
                lemma_last_pos_at(p@, '/', i - 1);
                assert(r@ =~= parent_of(p@));
            }
            return r;
        }
        i = i - 1;
    }
    let r = String::new();
    proof {
        lemma_no_char(p@, '/');
        assert(r@ =~= parent_of(p@));
    }
    r
}

} // verus!
