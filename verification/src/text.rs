//! Character classification and string primitives that the tokenizer builds
//! on.  The Unicode tables behind them live in the standard library; their
//! results are named by uninterpreted spec functions and everything else is
//! verified against those names.

use vstd::prelude::*;
use vstd::std_specs::iter::IteratorSpec;

verus! {

/// What `char::is_alphanumeric` returns: whether the character is a Unicode
/// letter or number.  The result depends on the character alone.
pub uninterp spec fn is_word_char_of(c: char) -> bool;

/// What `char::is_whitespace` returns: whether the character has the Unicode
/// whitespace property.  The result depends on the character alone.
pub uninterp spec fn is_space_of(c: char) -> bool;

/// What `str::to_lowercase` returns: the full Unicode lower-casing of a
/// character sequence.  The result depends on the characters alone.
pub uninterp spec fn lower_of(s: Seq<char>) -> Seq<char>;

/// Relies on `char::is_alphanumeric`: true exactly for Unicode letters and
/// numbers (the categories the token pattern accepts).
pub assume_specification[ char::is_alphanumeric ](c: char) -> (r: bool)
    ensures
        r == is_word_char_of(c),
;

/// Relies on `char::is_whitespace`: true exactly for characters with the
/// Unicode whitespace property.
pub assume_specification[ char::is_whitespace ](c: char) -> (r: bool)
    ensures
        r == is_space_of(c),
;

/// Relies on `str::to_lowercase`: the lower-cased text is a function of the
/// input characters alone, and an empty input stays empty.
pub assume_specification[ str::to_lowercase ](s: &str) -> (r: String)
    ensures
        r@ == lower_of(s@),
        s@.len() == 0 ==> r@.len() == 0,
;

/// Relies on `String::push`: appends exactly the given character.
pub assume_specification[ String::push ](s: &mut String, c: char)
    ensures
        final(s)@ == old(s)@.push(c),
;

/// Collects the characters of a string slice into a vector.
pub fn chars_of(s: &str) -> (r: Vec<char>)
    ensures
        r@ == s@,
{
    let mut it = s.chars();
    let mut r: Vec<char> = Vec::new();
    loop
        invariant_except_break
            IteratorSpec::obeys_prophetic_iter_laws(&it),
            IteratorSpec::decrease(&it) is Some,
            r@ + IteratorSpec::remaining(&it) == s@,
        ensures
            r@ == s@,
        decreases IteratorSpec::decrease(&it)->0,
    {
        match it.next() {
            Some(c) => {
                r.push(c);
            },
            None => {
                proof {
                    assert(r@ =~= s@);
                }
                break ;
            },
        }
    }
    r
}

/// Builds a string from a range of a character vector.
pub fn string_of_range(chars: &Vec<char>, from: usize, to: usize) -> (r: String)
    requires
        from <= to <= chars@.len(),
    ensures
        r@ == chars@.subrange(from as int, to as int),
{
    let mut r = String::new();
    let mut k: usize = from;
    while k < to
        invariant
            from <= k <= to <= chars@.len(),
            r@ == chars@.subrange(from as int, k as int),
        decreases to - k,
    {
        r.push(chars[k]);
        k = k + 1;
        proof {
            assert(r@ =~= chars@.subrange(from as int, k as int));
        }
    }
    r
}

} // verus!
