//! Comparing and trimming text.
use vstd::prelude::*;

verus! {

/// The characters with the Unicode property `White_Space`.
pub open spec fn white_space(c: char) -> bool {
    ||| '\u{9}' <= c <= '\u{d}'
    ||| c == '\u{20}'
    ||| c == '\u{85}'
    ||| c == '\u{a0}'
    ||| c == '\u{1680}'
    ||| '\u{2000}' <= c <= '\u{200a}'
    ||| '\u{2028}' <= c <= '\u{2029}'
    ||| c == '\u{202f}'
    ||| c == '\u{205f}'
    ||| c == '\u{3000}'
}

/// `s` without the white space in front.
pub open spec fn trimmed_start(s: Seq<char>) -> Seq<char>
    decreases s.len(),
{
    if s.len() > 0 && white_space(s.first()) {
        trimmed_start(s.drop_first())
    } else {
        s
    }
}

/// `s` without the white space at its end.
pub open spec fn trimmed_end(s: Seq<char>) -> Seq<char>
    decreases s.len(),
{
    if s.len() > 0 && white_space(s.last()) {
        trimmed_end(s.drop_last())
    } else {
        s
    }
}

/// `s` without the white space at either end.
pub open spec fn trimmed(s: Seq<char>) -> Seq<char> {
    trimmed_end(trimmed_start(s))
}

/// A character takes one to four bytes.
pub proof fn lemma_utf8_length(s: Seq<char>)
    ensures
        s.len() <= vstd::utf8::encode_utf8(s).len() <= 4 * s.len(),
    decreases s.len(),
{
    if s.len() > 0 {
        lemma_utf8_length(s.drop_first());
        vstd::utf8::char_is_scalar(s[0]);
    }
}

/// Text between white space is what trimming leaves: neither white space in front of it nor
/// behind it stays, and none within it goes.
pub proof fn law_trimming_leaves_the_text(front: Seq<char>, text: Seq<char>, back: Seq<char>)
    requires
        forall|i: int| 0 <= i < front.len() ==> white_space(#[trigger] front[i]),
        forall|i: int| 0 <= i < back.len() ==> white_space(#[trigger] back[i]),
        text.len() > 0 ==> !white_space(text.first()) && !white_space(text.last()),
    ensures
        trimmed(front + text + back) == text,
    decreases front.len() + back.len(),
{
    let whole = front + text + back;
    if front.len() > 0 {
        law_trimming_leaves_the_text(front.drop_first(), text, back);
        assert(whole.first() == front[0]);
        assert(whole.drop_first() =~= front.drop_first() + text + back);
    } else if text.len() == 0 {
        if back.len() > 0 {
            law_trimming_leaves_the_text(front, text, back.drop_first());
            assert(whole.first() == back[0]);
            assert(whole.drop_first() =~= front + text + back.drop_first());
        } else {
            assert(whole =~= text);
        }
    } else {
        assert(whole =~= text + back);
        assert(whole.first() == text.first());
        lemma_trimmed_end(text, back);
    }
}

proof fn lemma_trimmed_end(text: Seq<char>, back: Seq<char>)
    requires
        forall|i: int| 0 <= i < back.len() ==> white_space(#[trigger] back[i]),
        text.len() > 0,
        !white_space(text.last()),
    ensures
        trimmed_end(text + back) == text,
    decreases back.len(),
{
    let whole = text + back;
    if back.len() > 0 {
        lemma_trimmed_end(text, back.drop_last());
        assert(whole.last() == back.last());
        assert(back.last() == back[back.len() - 1]);
        assert(whole.drop_last() =~= text + back.drop_last());
    } else {
        assert(whole =~= text);
    }
}

/// Whether two strings hold the same characters.
pub(crate) fn same_text(a: &str, b: &str) -> (r: bool)
    ensures
        r == (a@ == b@),
{
    let x = a.as_bytes();
    let y = b.as_bytes();
    proof {
        vstd::utf8::encode_utf8_decode_utf8(a@);
        vstd::utf8::encode_utf8_decode_utf8(b@);
    }
    if x.len() != y.len() {
        return false;
    }
    let mut i: usize = 0;
    while i < x.len()
        invariant
            i <= x@.len(),
            x@.len() == y@.len(),
            x@ == vstd::utf8::encode_utf8(a@),
            y@ == vstd::utf8::encode_utf8(b@),
            forall|k: int| 0 <= k < i ==> x@[k] == y@[k],
        decreases x@.len() - i,
    {
        if x[i] != y[i] {
            return false;
        }
        i = i + 1;
    }
    assert(x@ =~= y@);
    true
}

/// Calls `str::trim`. The contract claims what its documentation says: the
/// result is the text without its leading and trailing white space, where white
/// space is the Unicode property `White_Space`, listed in [`white_space`].
#[verifier::external_body]
pub(crate) fn trim(s: &str) -> (r: &str)
    ensures
        r@ == trimmed(s@),
{
    s.trim()
}

} // verus!
