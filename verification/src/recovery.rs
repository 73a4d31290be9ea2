//! Recovery points: records naming a file to restore, numbered in bulk.

use vstd::prelude::*;
use crate::text::{chars_of, string_of, decimal, decimal_exec, append_chars};

verus! {

/// A file that can be restored, and whether its copy is valid.
pub struct RecoveryPoint {
    pub id: String,
    pub file_name: String,
    pub valid: bool,
}

/// The `i`-th point of a numbered run: its id and file name carry the
/// number `i` after the given stems.
pub open spec fn numbered_point(id_stem: Seq<char>, file_stem: Seq<char>, p: RecoveryPoint, i: nat) -> bool {
    &&& p.id@ == id_stem + decimal(i)
    &&& p.file_name@ == file_stem + decimal(i)
    &&& p.valid
}

/// `stem` followed by the decimal numeral of `i`.
fn numbered(stem: &Vec<char>, i: u64) -> (r: String)
    ensures
        r@ == stem@ + decimal(i as nat),
{
    let mut v: Vec<char> = Vec::new();
    append_chars(&mut v, stem);
    let d = decimal_exec(i);
    append_chars(&mut v, &d);
    assert(v@ =~= stem@ + decimal(i as nat));
    string_of(v.as_slice())
}

/// Valid points numbered `0..=max_index`, with ids `"abc-123"` and file
/// names `"picture.png"` followed by the number.
pub fn numbered_points(max_index: u64) -> (r: Vec<RecoveryPoint>)
    requires
        max_index < u64::MAX,
    ensures
        r@.len() == max_index + 1,
        forall|i: int| 0 <= i < r@.len() ==> numbered_point("abc-123"@, "picture.png"@, #[trigger] r@[i], i as nat),
{
    let id_stem = chars_of("abc-123");
    let file_stem = chars_of("picture.png");
    let mut r: Vec<RecoveryPoint> = Vec::new();
    let mut i: u64 = 0;
    loop
        invariant_except_break
            i <= max_index,
        invariant
            max_index < u64::MAX,
            r@.len() == i,
            id_stem@ == "abc-123"@,
            file_stem@ == "picture.png"@,
            forall|j: int| 0 <= j < r@.len() ==> numbered_point("abc-123"@, "picture.png"@, #[trigger] r@[j], j as nat),
        ensures
            r@.len() == max_index + 1,
            forall|j: int| 0 <= j < r@.len() ==> numbered_point("abc-123"@, "picture.png"@, #[trigger] r@[j], j as nat),
        decreases max_index + 1 - i,
    {
        let point = RecoveryPoint { id: numbered(&id_stem, i), file_name: numbered(&file_stem, i), valid: true };
        r.push(point);
        i = i + 1;
        if i > max_index {
            break;
        }
    }
    r
}

} // verus!
