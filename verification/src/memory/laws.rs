//! What a comparison of words stops at.

use vstd::prelude::*;

use super::equal_words;
use crate::bytes::le32;

verus! {

proof fn lemma_equal_words(source: Seq<u8>, value: u32, i: int)
    requires
        0 <= i <= source.len(),
    ensures
        ({
            let n = equal_words(source, value, i);
            &&& 0 <= n
            &&& i + 4 * n <= source.len()
            &&& forall|k: int| 0 <= k < n ==> #[trigger] le32(source, i + 4 * k) == value
            &&& i + 4 * n + 4 <= source.len() ==> le32(source, i + 4 * n) != value
        }),
    decreases source.len() - i,
{
    if i + 4 <= source.len() && le32(source, i) == value {
        lemma_equal_words(source, value, i + 4);
        let n = equal_words(source, value, i);
        assert forall|k: int| 0 <= k < n implies #[trigger] le32(source, i + 4 * k) == value by {
            if k > 0 {
                assert(le32(source, i + 4 + 4 * (k - 1)) == value);
            }
        }
    }
}

/// The words that are counted all equal the value, and the next one, where a whole word is left, does
/// not.
pub proof fn equal_words_go_as_far_as_they_can(source: Seq<u8>, value: u32)
    ensures
        ({
            let n = equal_words(source, value, 0);
            &&& 0 <= 4 * n <= source.len()
            &&& forall|k: int| 0 <= k < n ==> #[trigger] le32(source, 4 * k) == value
            &&& 4 * n + 4 <= source.len() ==> le32(source, 4 * n) != value
        }),
{
    lemma_equal_words(source, value, 0);
    let n = equal_words(source, value, 0);
    assert forall|k: int| 0 <= k < n implies #[trigger] le32(source, 4 * k) == value by {
        assert(le32(source, 0 + 4 * k) == value);
    }
}

} // verus!
