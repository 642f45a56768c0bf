//! Export lines as C strings. A child process takes its environment as
//! strings that end in a NUL byte, so a line counts up to its first NUL.

use vstd::prelude::*;
use vstd::string::StringSliceAdditionalSpecFns;

verus! {

/// Whether `text` is what a C string holds of `bytes`: the bytes before
/// the first NUL, or all of them where there is none.
pub open spec fn is_c_text(text: Seq<u8>, bytes: Seq<u8>) -> bool {
    &&& text.len() <= bytes.len()
    &&& text == bytes.take(text.len() as int)
    &&& forall|i: int| 0 <= i < text.len() ==> #[trigger] text[i] != 0
    &&& text.len() < bytes.len() ==> bytes[text.len() as int] == 0
}

/// The C string of `line`: its UTF-8 bytes before the first NUL, and a NUL
/// at the end.
pub fn c_string_bytes(line: &str) -> (r: Vec<u8>)
    ensures
        r@.len() >= 1,
        r@.last() == 0,
        is_c_text(r@.drop_last(), line.spec_bytes()),
{
    let bytes = line.as_bytes();
    let mut text: Vec<u8> = Vec::new();
    let mut i: usize = 0;
    while i < bytes.len() && bytes[i] != 0
        invariant
            i <= bytes.len(),
            text@ == bytes@.take(i as int),
            forall|j: int| 0 <= j < i ==> #[trigger] bytes@[j] != 0,
        decreases bytes.len() - i,
    {
        text.push(bytes[i]);
        i += 1;
        assert(text@ =~= bytes@.take(i as int));
    }
    let ghost cut = text@;
    text.push(0);
    assert(text@.drop_last() =~= cut);
    text
}

} // verus!
