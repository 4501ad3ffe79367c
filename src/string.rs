use vstd::prelude::*;
use vstd::std_specs::iter::IteratorSpec;

verus! {

broadcast use vstd::string::group_string_axioms;

/// `s` begins with `p`.
pub open spec fn has_prefix(s: Seq<char>, p: Seq<char>) -> bool {
    p.len() <= s.len() && s.subrange(0, p.len() as int) == p
}

/// Relies on `String::push`: the character is appended at the end.
#[verifier::external_body]
pub(crate) fn push_char(s: &mut String, c: char)
    ensures
        final(s)@ == old(s)@.push(c),
{
    s.push(c)
}

/// Relies on `str::starts_with`: true when the pattern is a prefix of the string.
#[verifier::external_body]
pub(crate) fn str_starts_with(s: &str, p: &str) -> (r: bool)
    ensures
        r == has_prefix(s@, p@),
{
    s.starts_with(p)
}

/// Whether `a` and `b` hold the same characters.
pub fn str_eq(a: &str, b: &str) -> (r: bool)
    ensures
        r == (a@ == b@),
{
    let r = a.unicode_len() == b.unicode_len() && str_starts_with(a, b);
    assert(a@.subrange(0, a@.len() as int) == a@);
    r
}

/// The characters of `s`, in order.
pub fn chars_of(s: &str) -> (r: Vec<char>)
    ensures
        r@ == s@,
{
    let mut it = s.chars();
    let mut out: Vec<char> = Vec::new();
    loop
        invariant
            out@ + it.remaining() == s@,
            it.decrease() is Some,
        ensures
            out@ == s@,
        decreases it.decrease()->0,
    {
        match it.next() {
            Some(c) => {
                out.push(c);
            },
            None => {
                break;
            },
        }
    }
    out
}


/// What `char::is_whitespace` answers for `c`: the Unicode `White_Space` property.
pub uninterp spec fn white_space(c: char) -> bool;

/// Relies on `char::is_whitespace`: true for characters with the `White_Space`
/// property; the answer depends on the character alone.
#[verifier::external_body]
fn is_white_space(c: char) -> (r: bool)
    ensures
        r == white_space(c),
{
    c.is_whitespace()
}

/// Length of `s` without its trailing whitespace.
pub open spec fn trimmed_len(s: Seq<char>) -> nat
    decreases s.len(),
{
    if s.len() == 0 {
        0
    } else if white_space(s.last()) {
        trimmed_len(s.drop_last())
    } else {
        s.len()
    }
}

/// Length of `s` up to and including its last space; 0 when it has none.
pub open spec fn through_last_space(s: Seq<char>) -> nat
    decreases s.len(),
{
    if s.len() == 0 {
        0
    } else if s.last() == ' ' {
        s.len()
    } else {
        through_last_space(s.drop_last())
    }
}

/// `s` without its last word: trailing whitespace is trimmed, then everything
/// after the last remaining space is dropped, the space itself kept; nothing is
/// left when no space remains.
pub open spec fn without_last_word(s: Seq<char>) -> Seq<char> {
    s.subrange(0, through_last_space(s.subrange(0, trimmed_len(s) as int)) as int)
}

proof fn lemma_through_last_space_bound(s: Seq<char>)
    ensures
        through_last_space(s) <= s.len(),
    decreases s.len(),
{
    if s.len() > 0 {
        lemma_through_last_space_bound(s.drop_last());
    }
}

/// Deletes the last word of `s`, as a word-erase key does.
pub fn delete_word(s: &str) -> (r: String)
    ensures
        r@ == without_last_word(s@),
{
    let cs = chars_of(s);
    let mut t: usize = cs.len();
    assert(s@.subrange(0, t as int) == s@);
    while t > 0 && is_white_space(cs[t - 1])
        invariant
            cs@ == s@,
            t <= cs@.len(),
            trimmed_len(s@) == trimmed_len(s@.subrange(0, t as int)),
        decreases t,
    {
        assert(s@.subrange(0, t as int).drop_last() == s@.subrange(0, t - 1));
        t = t - 1;
    }
    let ghost trimmed = s@.subrange(0, t as int);
    let mut k: usize = t;
    assert(trimmed.subrange(0, k as int) == trimmed);
    while k > 0 && cs[k - 1] != ' '
        invariant
            cs@ == s@,
            k <= t <= cs@.len(),
            trimmed == s@.subrange(0, t as int),
            through_last_space(trimmed) == through_last_space(trimmed.subrange(0, k as int)),
        decreases k,
    {
        assert(trimmed.subrange(0, k as int).drop_last() == trimmed.subrange(0, k - 1));
        k = k - 1;
    }
    proof {
        lemma_through_last_space_bound(trimmed.subrange(0, k as int));
        assert(through_last_space(trimmed.subrange(0, k as int)) == k);
    }
    s.substring_char(0, k).to_owned()
}

} // verus!
