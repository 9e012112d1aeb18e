//! What the library needs to know of `String` to build text.

use vstd::prelude::*;

verus! {

/// `String::push` appends the character to the end of the string.
pub assume_specification[ String::push ](s: &mut String, ch: char)
    ensures
        final(s)@ == old(s)@.push(ch),
;

/// `String::push_str` appends the string slice to the end of the string.
pub assume_specification[ String::push_str ](s: &mut String, string: &str)
    ensures
        final(s)@ == old(s)@ + string@,
;

/// The characters of `s`, in order.
pub fn chars_of(s: &str) -> (v: Vec<char>)
    ensures
        v@ == s@,
{
    let mut v: Vec<char> = Vec::new();
    for c in it: s.chars()
        invariant
            v@.len() == it.index(),
            forall|j: int| 0 <= j < v@.len() ==> v@[j] == it.seq()[j],
            it.seq() == s@,
    {
        v.push(c);
    }
    assert(v@ =~= s@);
    v
}

/// `token` stands in `text` at `pos`. An empty token stands nowhere.
pub open spec fn has_at(text: Seq<char>, token: Seq<char>, pos: int) -> bool {
    &&& token.len() > 0
    &&& 0 <= pos
    &&& pos + token.len() <= text.len()
    &&& text.subrange(pos, pos + token.len()) == token
}

/// Whether `token` stands in `text` at `pos`.
pub fn starts_with_at(text: &Vec<char>, token: &Vec<char>, pos: usize) -> (r: bool)
    ensures
        r == has_at(text@, token@, pos as int),
{
    let n: usize = token.len();
    let total: usize = text.len();
    if n == 0 || pos > total || n > total - pos {
        return false;
    }
    let mut i: usize = 0;
    while i < n
        invariant
            n == token@.len(),
            total == text@.len(),
            pos + n <= total,
            i <= n,
            forall|j: int| 0 <= j < i ==> text@[pos + j] == token@[j],
        decreases n - i,
    {
        if text[pos + i] != token[i] {
            proof {
                let part = text@.subrange(pos as int, pos + n);
                assert(part[i as int] != token@[i as int]);
            }
            return false;
        }
        i += 1;
    }
    assert(text@.subrange(pos as int, pos + n) =~= token@);
    true
}

} // verus!
