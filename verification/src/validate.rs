use vstd::prelude::*;

verus! {

/// Whether `c` has the Unicode `White_Space` property.
pub open spec fn is_white_space(c: char) -> bool {
    let u = c as u32;
    ||| 0x9 <= u <= 0xd
    ||| u == 0x20
    ||| u == 0x85
    ||| u == 0xa0
    ||| u == 0x1680
    ||| 0x2000 <= u <= 0x200a
    ||| u == 0x2028
    ||| u == 0x2029
    ||| u == 0x202f
    ||| u == 0x205f
    ||| u == 0x3000
}

/// Whether the text consists of white space only (the empty text included), that is,
/// whether trimming it leaves nothing.
pub open spec fn is_blank(s: Seq<char>) -> bool {
    forall|i: int| 0 <= i < s.len() ==> is_white_space(#[trigger] s[i])
}

/// A text is rejected exactly when every one of its characters is Unicode white space; in
/// particular a text holding a visible ASCII character (a letter, a digit, punctuation)
/// is never rejected.
pub proof fn lemma_blank_exactly(s: Seq<char>)
    ensures
        is_blank(s) <==> forall|i: int| 0 <= i < s.len() ==> is_white_space(#[trigger] s[i]),
        forall|i: int| 0 <= i < s.len() && 0x21 <= #[trigger] s[i] as u32 <= 0x7e ==> !is_blank(s),
{
    assert forall|i: int| 0 <= i < s.len() && 0x21 <= #[trigger] s[i] as u32 <= 0x7e implies !is_blank(s) by {
        assert(!is_white_space(s[i]));
    }
}

/// `char::is_whitespace`, which std documents as the Unicode `White_Space` property; the
/// contract spells that property out.
#[verifier::external_body]
fn char_is_whitespace(c: char) -> (b: bool)
    ensures
        b == is_white_space(c),
{
    c.is_whitespace()
}

/// `String::push_str` appends `string` to the end of `s`.
pub assume_specification[ String::push_str ](s: &mut String, string: &str)
    ensures
        final(s)@ == old(s)@ + string@,
;

/// Rejects a text field that is empty or holds only white space, with the message
/// "`field_name` must not be empty".
pub fn validate_non_empty(field_name: &str, value: &str) -> (r: Result<(), String>)
    ensures
        r is Err <==> is_blank(value@),
        r matches Err(msg) ==> msg@ == field_name@ + " must not be empty"@,
        (exists|i: int| 0 <= i < value@.len() && !is_white_space(#[trigger] value@[i])) ==> r is Ok,
        (forall|i: int| 0 <= i < value@.len() ==> is_white_space(#[trigger] value@[i])) ==> r is Err,
        forall|i: int| 0 <= i < value@.len() && 0x21 <= #[trigger] value@[i] as u32 <= 0x7e ==> r is Ok,
{
    proof { lemma_blank_exactly(value@); }
    for c in it: value.chars()
        invariant
            it.seq() == value@,
            forall|j: int| 0 <= j < it.index() ==> is_white_space(#[trigger] it.seq()[j]),
    {
        if !char_is_whitespace(c) {
            assert(!is_white_space(value@[it.index() as int]));
            return Ok(());
        }
    }
    let mut msg = field_name.to_owned();
    msg.push_str(" must not be empty");
    Err(msg)
}

/// Rejects an empty embedding with the message "embedding must not be empty".
pub fn validate_embedding<T>(embedding: &[T]) -> (r: Result<(), String>)
    ensures
        r is Err <==> embedding@.len() == 0,
        r matches Err(msg) ==> msg@ == "embedding must not be empty"@,
{
    if embedding.len() == 0 {
        return Err("embedding must not be empty".to_owned());
    }
    Ok(())
}

} // verus!
