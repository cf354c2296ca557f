//! Words of the command language, which are matched without regard to the case of letters.

use vstd::prelude::*;
use vstd::utf8::is_ascii_chars;

verus! {

/// The lower-case form of an ASCII capital letter; any other character as it is.
pub open spec fn lower(c: char) -> char {
    if 'A' <= c && c <= 'Z' {
        ((c as u8) + 32) as char
    } else {
        c
    }
}

/// A text with each ASCII capital letter replaced by its lower-case form.
pub open spec fn lowered(s: Seq<char>) -> Seq<char> {
    Seq::new(s.len(), |i: int| lower(s[i]))
}

/// Tells whether `text` is `word` but for the case of its letters. The word is given in lower
/// case.
pub fn is_word(text: &str, word: &str) -> (same: bool)
    requires
        is_ascii_chars(word@),
    ensures
        same == (lowered(text@) == word@),
{
    if !text.is_ascii() {
        proof {
            let i = choose|i: int|
                0 <= i < text@.len() && !('\0' <= #[trigger] text@[i] <= '\u{7f}');
            if lowered(text@) == word@ {
                assert(lowered(text@)[i] == text@[i]);
                assert('\0' <= word@[i] <= '\u{7f}');
            }
        }
        return false;
    }
    let a = text.as_bytes();
    let b = word.as_bytes();
    proof {
        vstd::utf8::is_ascii_chars_encode_utf8(text@);
        vstd::utf8::is_ascii_chars_encode_utf8(word@);
    }
    if a.len() != b.len() {
        assert(lowered(text@).len() != word@.len());
        return false;
    }
    let mut i: usize = 0;
    while i < a.len()
        invariant
            i <= a@.len(),
            a@.len() == text@.len(),
            b@.len() == word@.len(),
            a@.len() == b@.len(),
            is_ascii_chars(text@),
            is_ascii_chars(word@),
            forall|j: int| 0 <= j < text@.len() ==> text@[j] as u8 == #[trigger] a@[j],
            forall|j: int| 0 <= j < word@.len() ==> word@[j] as u8 == #[trigger] b@[j],
            forall|j: int| 0 <= j < i ==> lower(text@[j]) == word@[j],
        decreases a@.len() - i,
    {
        let x = a[i];
        let folded: u8 = if 65 <= x && x <= 90 {
            x + 32
        } else {
            x
        };
        proof {
            assert(text@[i as int] as u8 == a@[i as int]);
            assert(word@[i as int] as u8 == b@[i as int]);
            assert('\0' <= text@[i as int] <= '\u{7f}');
            assert('\0' <= word@[i as int] <= '\u{7f}');
        }
        if folded != b[i] {
            assert(lower(text@[i as int]) != word@[i as int]);
            assert(lowered(text@)[i as int] != word@[i as int]);
            return false;
        }
        assert(lower(text@[i as int]) == word@[i as int]);
        i += 1;
    }
    assert(lowered(text@) =~= word@);
    true
}

} // verus!
