//! Which accelerator a name stands for.

use vstd::prelude::*;
use vstd::utf8::*;

use crate::hardware;
use crate::text;

verus! {

/// An accelerator goes by the longest pattern of the table that stands in its name,
/// in any case: the answer is the row of a pattern that does, no pattern that does
/// is longer, and there is an answer wherever one does. A name of more than 96
/// bytes is read up to there, and not at all where that is inside a character.
pub proof fn law_the_longest_pattern_wins(name: Seq<u8>, i: int) -> (j: int)
    requires
        0 <= i < hardware::gpu_rows().len(),
    ensures
        ({
            let n = if name.len() < 96 {
                name.len() as int
            } else {
                96
            };
            let rows = hardware::gpu_rows();
            let stands = |k: int|
                text::occurs(text::lowered(name.take(n)), encode_utf8(rows[k].0@));
            let answer = hardware::gpu_answer(name);
            &&& !is_char_boundary(name, n) ==> answer is None
            &&& is_char_boundary(name, n) && stands(i) ==> {
                &&& 0 <= j < rows.len()
                &&& stands(j)
                &&& encode_utf8(rows[i].0@).len() <= encode_utf8(rows[j].0@).len()
                &&& answer == Some((rows[j].1, rows[j].2))
            }
            &&& answer is Some ==> 0 <= j < rows.len() && stands(j) && answer == Some(
                (rows[j].1, rows[j].2),
            )
        }),
{
    let rows = hardware::gpu_rows();
    if is_char_boundary(name, hardware::gpu_name_len(name)) && hardware::gpu_row_occurs(name, i) {
        let b = lemma_best(name, rows.len());
        assert(hardware::gpu_row_occurs(name, b));
        assert(hardware::gpu_row_wins(name, b));
    }
    choose|k: int| hardware::gpu_row_wins(name, k)
}

/// The best of the first rows, where one of them stands in the name.
proof fn lemma_best(name: Seq<u8>, n: nat) -> (b: int)
    requires
        n <= hardware::gpu_rows().len(),
    ensures
        (exists|k: int| 0 <= k < n && hardware::gpu_row_occurs(name, k)) ==> {
            &&& 0 <= b < n
            &&& hardware::gpu_row_occurs(name, b)
            &&& forall|j: int|
                0 <= j < n && #[trigger] hardware::gpu_row_occurs(name, j)
                    ==> hardware::gpu_pattern_len(j) < hardware::gpu_pattern_len(b) || (
                hardware::gpu_pattern_len(j) == hardware::gpu_pattern_len(b) && b <= j)
        },
    decreases n,
{
    if n == 0 {
        0
    } else {
        let b = lemma_best(name, (n - 1) as nat);
        let last = n - 1;
        if exists|k: int| 0 <= k < n - 1 && hardware::gpu_row_occurs(name, k) {
            if hardware::gpu_row_occurs(name, last) && hardware::gpu_pattern_len(last)
                > hardware::gpu_pattern_len(b) {
                last
            } else {
                b
            }
        } else {
            last
        }
    }
}

} // verus!
