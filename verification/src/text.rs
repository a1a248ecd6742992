use vstd::prelude::*;

verus! {

/// The suffix of `s` after the last occurrence of `c`; all of `s` when `c`
/// does not occur.
pub open spec fn after_last(s: Seq<char>, c: char) -> Seq<char>
    decreases s.len(),
{
    if s.len() == 0 {
        s
    } else if s.last() == c {
        Seq::<char>::empty()
    } else {
        after_last(s.drop_last(), c).push(s.last())
    }
}

pub proof fn lemma_after_last_no_occurrence(s: Seq<char>, c: char)
    requires
        forall|j: int| 0 <= j < s.len() ==> s[j] != c,
    ensures
        after_last(s, c) == s,
    decreases s.len(),
{
    if s.len() > 0 {
        lemma_after_last_no_occurrence(s.drop_last(), c);
        assert(after_last(s, c) =~= s);
    }
}

pub proof fn lemma_after_last_at(s: Seq<char>, c: char, k: int)
    requires
        0 <= k < s.len(),
        s[k] == c,
        forall|j: int| k < j < s.len() ==> s[j] != c,
    ensures
        after_last(s, c) == s.skip(k + 1),
    decreases s.len(),
{
    if k == s.len() - 1 {
        assert(s.last() == c);
        assert(after_last(s, c) =~= s.skip(k + 1));
    } else {
        lemma_after_last_at(s.drop_last(), c, k);
        assert(s.drop_last().skip(k + 1) =~= s.skip(k + 1).drop_last());
        assert(after_last(s, c) =~= s.skip(k + 1));
    }
}

/// The index of the first newline in `s`, or `s.len()` when there is none.
pub open spec fn line_break(s: Seq<char>) -> int
    decreases s.len(),
{
    if s.len() == 0 {
        0
    } else if s[0] == '\n' {
        0
    } else {
        1 + line_break(s.drop_first())
    }
}

pub proof fn lemma_line_break_at(s: Seq<char>, k: int)
    requires
        0 <= k <= s.len(),
        forall|j: int| 0 <= j < k ==> s[j] != '\n',
        k < s.len() ==> s[k] == '\n',
    ensures
        line_break(s) == k,
    decreases s.len(),
{
    if k == 0 {
    } else {
        lemma_line_break_at(s.drop_first(), k - 1);
    }
}

pub proof fn lemma_line_break_bounds(s: Seq<char>)
    ensures
        0 <= line_break(s) <= s.len(),
    decreases s.len(),
{
    if s.len() > 0 && s[0] != '\n' {
        lemma_line_break_bounds(s.drop_first());
    }
}

/// Relies on String::push: appends exactly the given character.
#[verifier::external_body]
pub fn push_char(s: &mut String, c: char)
    ensures
        final(s)@ == old(s)@.push(c),
{
    s.push(c);
}

/// Relies on String::from_utf8: succeeds exactly on valid UTF-8 input and
/// decodes it.
#[verifier::external_body]
pub fn utf8_to_string(b: Vec<u8>) -> (r: Option<String>)
    ensures
        r is Some <==> vstd::utf8::valid_utf8(b@),
        r is Some ==> r.unwrap()@ == vstd::utf8::decode_utf8(b@),
{
    match String::from_utf8(b) {
        Ok(s) => Some(s),
        Err(_) => None,
    }
}

} // verus!
