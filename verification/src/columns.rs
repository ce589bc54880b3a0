//! Columns of compressed rows and checks on them.
//!
//! A row table keeps the values of all rows in one column and, in another, where each row
//! begins; row `r` is the values from `offsets[r]` up to `offsets[r + 1]`.

use vstd::prelude::*;
use vstd::string::*;

verus! {

/// Each offset is at most every later one.
pub open spec fn is_monotone(offsets: Seq<u64>) -> bool {
    forall|i: int, j: int| 0 <= i <= j < offsets.len() ==> offsets[i] <= offsets[j]
}

/// The offsets begin at zero and end at the number of values.
pub open spec fn has_endpoints(offsets: Seq<u64>, values_len: nat) -> bool {
    offsets.len() > 0 && offsets[0] == 0 && offsets.last() == values_len
}

/// The offsets divide `values_len` values into rows.
pub open spec fn is_row_table(offsets: Seq<u64>, values_len: nat) -> bool {
    has_endpoints(offsets, values_len) && is_monotone(offsets)
}

/// What is wrong with the offsets of a table, if anything.
pub open spec fn row_table_fault(name: Seq<char>, offsets: Seq<u64>, values_len: nat) -> Option<
    Seq<char>,
> {
    if !has_endpoints(offsets, values_len) {
        Some(name + " endpoints"@)
    } else if !is_monotone(offsets) {
        Some(name + " offsets not monotone"@)
    } else {
        None
    }
}

/// A fault text and its character sequence.
pub open spec fn same_fault(text: Option<String>, fault: Option<Seq<char>>) -> bool {
    match (text, fault) {
        (Some(text), Some(fault)) => text@ == fault,
        (None, None) => true,
        _ => false,
    }
}

/// The values of row `row`.
pub open spec fn row_of<T>(offsets: Seq<u64>, values: Seq<T>, row: int) -> Seq<T> {
    values.subrange(offsets[row] as int, offsets[row + 1] as int)
}

/// Row `row` holds `value`.
pub open spec fn row_holds(offsets: Seq<u64>, values: Seq<u32>, row: int, value: int) -> bool {
    exists|k: int| offsets[row] <= k < offsets[row + 1] && #[trigger] values[k] == value
}

/// The values of row `row` increase.
pub open spec fn row_increases(offsets: Seq<u64>, values: Seq<u32>, row: int) -> bool {
    forall|i: int, j: int|
        offsets[row] <= i < j < offsets[row + 1] ==> #[trigger] values[i] < #[trigger] values[j]
}

/// The values of row `row` do not decrease.
pub open spec fn row_ascends(offsets: Seq<u64>, values: Seq<u32>, row: int) -> bool {
    forall|i: int, j: int|
        offsets[row] <= i < j < offsets[row + 1] ==> #[trigger] values[i] <= #[trigger] values[j]
}

/// Every value is below `bound`.
pub open spec fn all_below(values: Seq<u32>, bound: int) -> bool {
    forall|i: int| 0 <= i < values.len() ==> #[trigger] values[i] < bound
}

proof fn lemma_monotone_extend(offsets: Seq<u64>, end: int)
    requires
        0 < end < offsets.len(),
        is_monotone(offsets.take(end)),
        offsets[end - 1] <= offsets[end],
    ensures
        is_monotone(offsets.take(end + 1)),
{
    let longer = offsets.take(end + 1);
    let shorter = offsets.take(end);
    assert forall|i: int, j: int| 0 <= i <= j < longer.len() implies longer[i] <= longer[j] by {
        if j < end {
            assert(shorter[i] <= shorter[j]);
        } else if i < end {
            assert(shorter[i] <= shorter[end - 1]);
        }
    }
}

/// Checks the offsets of a table.
pub fn check_row_table(name: &str, offsets: &Vec<u64>, values_len: usize) -> (fault: Option<String>)
    ensures
        same_fault(fault, row_table_fault(name@, offsets@, values_len as nat)),
{
    if offsets.len() == 0 || offsets[0] != 0 || offsets[offsets.len() - 1] != values_len as u64 {
        return Some(name.to_owned().concat(" endpoints"));
    }
    let mut i: usize = 1;
    assert(is_monotone(offsets@.take(1)));
    while i < offsets.len()
        invariant
            1 <= i <= offsets@.len(),
            has_endpoints(offsets@, values_len as nat),
            is_monotone(offsets@.take(i as int)),
        decreases offsets.len() - i,
    {
        if offsets[i - 1] > offsets[i] {
            assert(!is_monotone(offsets@)) by {
                assert(offsets@[i - 1] > offsets@[i as int]);
            }
            return Some(name.to_owned().concat(" offsets not monotone"));
        }
        proof {
            lemma_monotone_extend(offsets@, i as int);
        }
        i = i + 1;
    }
    assert(offsets@.take(i as int) =~= offsets@);
    None
}

/// Whether every value is below `bound`.
pub fn check_all_below(values: &Vec<u32>, bound: usize) -> (below: bool)
    ensures
        below == all_below(values@, bound as int),
{
    let mut i: usize = 0;
    while i < values.len()
        invariant
            i <= values@.len(),
            forall|k: int| 0 <= k < i ==> #[trigger] values@[k] < bound,
        decreases values.len() - i,
    {
        if values[i] as usize >= bound {
            assert(values@[i as int] >= bound);
            return false;
        }
        i = i + 1;
    }
    true
}

/// Whether row `row` increases.
pub fn check_row_increases(offsets: &Vec<u64>, values: &Vec<u32>, row: usize) -> (increases: bool)
    requires
        is_row_table(offsets@, values@.len()),
        row + 1 < offsets@.len(),
    ensures
        increases == row_increases(offsets@, values@, row as int),
{
    let rows: usize = offsets.len();
    let count: usize = values.len();
    assert(row + 1 < rows && offsets@[row + 1] <= count) by {
        lemma_row_bounds(offsets@, values@.len(), row as int);
    }
    let begin: usize = offsets[row] as usize;
    let end: usize = offsets[row + 1] as usize;
    proof {
        lemma_row_bounds(offsets@, values@.len(), row as int);
    }
    if begin == end {
        return true;
    }
    let mut i: usize = begin + 1;
    while i < end
        invariant
            begin == offsets@[row as int],
            end == offsets@[row + 1],
            begin < i <= end <= values@.len(),
            forall|a: int, b: int|
                begin <= a < b < i ==> #[trigger] values@[a] < #[trigger] values@[b],
        decreases end - i,
    {
        if values[i - 1] >= values[i] {
            assert(values@[i - 1] >= values@[i as int]);
            return false;
        }
        assert forall|a: int, b: int| begin <= a < b < i + 1 implies #[trigger] values@[a]
            < #[trigger] values@[b] by {
            if b == i && a < i - 1 {
                assert(values@[a] < values@[i - 1]);
            }
        }
        i = i + 1;
    }
    true
}

/// A row lies within the values.
pub proof fn lemma_row_bounds(offsets: Seq<u64>, values_len: nat, row: int)
    requires
        is_row_table(offsets, values_len),
        0 <= row,
        row + 1 < offsets.len(),
    ensures
        offsets[row] <= offsets[row + 1] <= values_len,
{
    assert(offsets[row] <= offsets[row + 1]);
    assert(offsets[row + 1] <= offsets[offsets.len() - 1]);
}

/// Two row tables describe one membership relation, each from its side: row `a` of the first
/// holds `b` if and only if row `b` of the second holds `a`.
pub open spec fn are_mutual(
    offsets: Seq<u64>,
    values: Seq<u32>,
    other_offsets: Seq<u64>,
    other_values: Seq<u32>,
) -> bool {
    &&& forall|a: int, b: int|
        0 <= a < offsets.len() - 1 && #[trigger] row_holds(offsets, values, a, b) ==> 0 <= b
            < other_offsets.len() - 1 && row_holds(other_offsets, other_values, b, a)
    &&& forall|a: int, b: int|
        0 <= b < other_offsets.len() - 1 && #[trigger] row_holds(
            other_offsets,
            other_values,
            b,
            a,
        ) ==> row_holds(offsets, values, a, b)
}

/// Row `b` of the second table holds `a` in a row before `block`, or in row `block` before
/// position `at`.
spec fn matched(
    other_offsets: Seq<u64>,
    other_values: Seq<u32>,
    a: int,
    b: int,
    block: int,
    at: int,
) -> bool {
    ||| 0 <= b < block && row_holds(other_offsets, other_values, b, a)
    ||| b == block && exists|k: int| other_offsets[b] <= k < at && #[trigger] other_values[k] == a
}

/// Row `a` holds `b` before its cursor.
spec fn passed(offsets: Seq<u64>, values: Seq<u32>, cursor: u64, a: int, b: int) -> bool {
    exists|k: int| offsets[a] <= k < cursor && #[trigger] values[k] == b
}

/// Cursor `a` has passed exactly the rows of the second table that held `a` so far.
spec fn cursor_agrees(
    offsets: Seq<u64>,
    values: Seq<u32>,
    other_offsets: Seq<u64>,
    other_values: Seq<u32>,
    cursor: u64,
    a: int,
    block: int,
    at: int,
) -> bool {
    &&& offsets[a] <= cursor <= offsets[a + 1]
    &&& forall|b: int| #[trigger]
        passed(offsets, values, cursor, a, b) <==> matched(
            other_offsets,
            other_values,
            a,
            b,
            block,
            at,
        )
}

proof fn lemma_matched_step(
    other_offsets: Seq<u64>,
    other_values: Seq<u32>,
    a: int,
    b: int,
    block: int,
    at: int,
)
    requires
        other_offsets[block] <= at,
    ensures
        matched(other_offsets, other_values, a, b, block, at + 1) <==> matched(
            other_offsets,
            other_values,
            a,
            b,
            block,
            at,
        ) || (b == block && other_values[at] == a),
{
    if b == block && exists|k: int|
        other_offsets[b] <= k < at + 1 && #[trigger] other_values[k] == a {
        let k = choose|k: int| other_offsets[b] <= k < at + 1 && #[trigger] other_values[k] == a;
        assert(k == at || k < at);
    }
    if b == block && other_values[at] == a {
        assert(other_offsets[b] <= at < at + 1 && other_values[at] == a);
    }
}

proof fn lemma_matched_row_end(
    other_offsets: Seq<u64>,
    other_values: Seq<u32>,
    a: int,
    b: int,
    block: int,
)
    requires
        0 <= block,
        block + 1 < other_offsets.len(),
    ensures
        matched(
            other_offsets,
            other_values,
            a,
            b,
            block,
            other_offsets[block + 1] as int,
        ) <==> matched(
            other_offsets,
            other_values,
            a,
            b,
            block + 1,
            other_offsets[block + 1] as int,
        ),
{
}

proof fn lemma_passed_step(
    offsets: Seq<u64>,
    values: Seq<u32>,
    cursor: u64,
    a: int,
    b: int,
)
    requires
        offsets[a] <= cursor < u64::MAX,
    ensures
        passed(offsets, values, (cursor + 1) as u64, a, b) <==> passed(
            offsets,
            values,
            cursor,
            a,
            b,
        ) || values[cursor as int] == b,
{
    if passed(offsets, values, (cursor + 1) as u64, a, b) {
        let k = choose|k: int| offsets[a] <= k < cursor + 1 && #[trigger] values[k] == b;
        assert(k == cursor || k < cursor);
    }
    if values[cursor as int] == b {
        assert(offsets[a] <= cursor < cursor + 1 && values[cursor as int] == b);
    }
}

/// A value that a cursor stands at, and that the second table holds in an earlier row or in
/// this row before, would have been passed.
proof fn lemma_disagreement(
    offsets: Seq<u64>,
    values: Seq<u32>,
    other_offsets: Seq<u64>,
    other_values: Seq<u32>,
    cursor: u64,
    a: int,
    block: int,
    at: int,
)
    requires
        is_row_table(offsets, values.len()),
        0 <= a < offsets.len() - 1,
        0 <= block < other_offsets.len() - 1,
        row_increases(offsets, values, a),
        cursor_agrees(offsets, values, other_offsets, other_values, cursor, a, block, at),
        other_offsets[block] <= at < other_offsets[block + 1],
        other_values[at] == a,
        !(exists|k: int| other_offsets[block] <= k < at && #[trigger] other_values[k] == a),
        cursor >= offsets[a + 1] || values[cursor as int] != block,
    ensures
        !are_mutual(offsets, values, other_offsets, other_values),
{
    if are_mutual(offsets, values, other_offsets, other_values) {
        assert(row_holds(other_offsets, other_values, block, a));
        assert(row_holds(offsets, values, a, block));
        let j = choose|j: int| offsets[a] <= j < offsets[a + 1] && #[trigger] values[j] == block;
        if j < cursor {
            assert(passed(offsets, values, cursor, a, block));
            assert(matched(other_offsets, other_values, a, block, block, at));
        } else {
            assert(j > cursor);
            let b = values[cursor as int] as int;
            assert(values[cursor as int] < values[j]);
            assert(row_holds(offsets, values, a, b));
            assert(row_holds(other_offsets, other_values, b, a));
            assert(matched(other_offsets, other_values, a, b, block, at));
            assert(passed(offsets, values, cursor, a, b));
            let k = choose|k: int| offsets[a] <= k < cursor && #[trigger] values[k] == b;
            assert(values[k] < values[cursor as int]);
        }
    }
}

proof fn lemma_cursor_left(
    offsets: Seq<u64>,
    values: Seq<u32>,
    other_offsets: Seq<u64>,
    other_values: Seq<u32>,
    cursor: u64,
    a: int,
)
    requires
        is_row_table(offsets, values.len()),
        is_row_table(other_offsets, other_values.len()),
        0 <= a < offsets.len() - 1,
        row_increases(offsets, values, a),
        cursor_agrees(
            offsets,
            values,
            other_offsets,
            other_values,
            cursor,
            a,
            other_offsets.len() - 1,
            other_values.len() as int,
        ),
        cursor != offsets[a + 1],
    ensures
        !are_mutual(offsets, values, other_offsets, other_values),
{
    if are_mutual(offsets, values, other_offsets, other_values) {
        let b = values[cursor as int] as int;
        assert(row_holds(offsets, values, a, b));
        assert(row_holds(other_offsets, other_values, b, a));
        assert(matched(
            other_offsets,
            other_values,
            a,
            b,
            other_offsets.len() - 1,
            other_values.len() as int,
        ));
        assert(passed(offsets, values, cursor, a, b));
        let k = choose|k: int| offsets[a] <= k < cursor && #[trigger] values[k] == b;
        assert(values[k] < values[cursor as int]);
    }
}

/// Whether two row tables describe one membership relation. The rows of the first increase;
/// those of the second ascend and may repeat values.
pub fn check_mutual(
    offsets: &Vec<u64>,
    values: &Vec<u32>,
    other_offsets: &Vec<u64>,
    other_values: &Vec<u32>,
) -> (mutual: bool)
    requires
        is_row_table(offsets@, values@.len()),
        is_row_table(other_offsets@, other_values@.len()),
        forall|a: int|
            0 <= a < offsets@.len() - 1 ==> #[trigger] row_increases(offsets@, values@, a),
        forall|b: int|
            0 <= b < other_offsets@.len() - 1 ==> #[trigger] row_ascends(
                other_offsets@,
                other_values@,
                b,
            ),
        all_below(other_values@, offsets@.len() - 1),
        other_offsets@.len() <= u32::MAX,
    ensures
        mutual == are_mutual(offsets@, values@, other_offsets@, other_values@),
{
    let rows: usize = offsets.len() - 1;
    let other_rows: usize = other_offsets.len() - 1;
    let value_count: usize = values.len();
    let other_count: usize = other_values.len();
    let mut cursors: Vec<u64> = Vec::new();
    let mut r: usize = 0;
    while r < rows
        invariant
            r <= rows,
            rows == offsets@.len() - 1,
            cursors@.len() == r,
            is_row_table(offsets@, values@.len()),
            forall|a: int| 0 <= a < r ==> #[trigger] cursors@[a] == offsets@[a],
        decreases rows - r,
    {
        cursors.push(offsets[r]);
        r = r + 1;
    }
    proof {
        assert forall|a: int| 0 <= a < rows implies #[trigger] cursor_agrees(
            offsets@,
            values@,
            other_offsets@,
            other_values@,
            cursors@[a],
            a,
            0,
            other_offsets@[0] as int,
        ) by {
            lemma_row_bounds(offsets@, values@.len(), a);
        }
    }
    let mut block: usize = 0;
    while block < other_rows
        invariant
            block <= other_rows,
            rows == offsets@.len() - 1,
            other_rows == other_offsets@.len() - 1,
            value_count == values@.len(),
            other_count == other_values@.len(),
            cursors@.len() == rows,
            other_rows < u32::MAX,
            is_row_table(offsets@, values@.len()),
            is_row_table(other_offsets@, other_values@.len()),
            all_below(other_values@, rows as int),
            forall|a: int|
                0 <= a < offsets@.len() - 1 ==> #[trigger] row_increases(offsets@, values@, a),
            forall|b: int|
                0 <= b < other_offsets@.len() - 1 ==> #[trigger] row_ascends(
                    other_offsets@,
                    other_values@,
                    b,
                ),
            forall|a: int|
                0 <= a < rows ==> #[trigger] cursor_agrees(
                    offsets@,
                    values@,
                    other_offsets@,
                    other_values@,
                    cursors@[a],
                    a,
                    block as int,
                    other_offsets@[block as int] as int,
                ),
        decreases other_rows - block,
    {
        proof {
            lemma_row_bounds(other_offsets@, other_values@.len(), block as int);
        }
        let begin: usize = other_offsets[block] as usize;
        let end: usize = other_offsets[block + 1] as usize;
        let mut at: usize = begin;
        while at < end
            invariant
                block < other_rows,
                rows == offsets@.len() - 1,
                other_rows == other_offsets@.len() - 1,
                value_count == values@.len(),
                other_count == other_values@.len(),
                cursors@.len() == rows,
                other_rows < u32::MAX,
                begin == other_offsets@[block as int],
                end == other_offsets@[block + 1],
                begin <= at <= end <= other_values@.len(),
                is_row_table(offsets@, values@.len()),
                is_row_table(other_offsets@, other_values@.len()),
                all_below(other_values@, rows as int),
                forall|a: int|
                    0 <= a < offsets@.len() - 1 ==> #[trigger] row_increases(offsets@, values@, a),
                row_ascends(other_offsets@, other_values@, block as int),
                forall|a: int|
                    0 <= a < rows ==> #[trigger] cursor_agrees(
                        offsets@,
                        values@,
                        other_offsets@,
                        other_values@,
                        cursors@[a],
                        a,
                        block as int,
                        at as int,
                    ),
            decreases end - at,
        {
            let a: usize = other_values[at] as usize;
            assert(other_values@[at as int] < rows);
            let ghost before = cursors@;
            if at > begin && other_values[at - 1] == other_values[at] {
                proof {
                    assert forall|other: int| 0 <= other < rows implies #[trigger] cursor_agrees(
                        offsets@,
                        values@,
                        other_offsets@,
                        other_values@,
                        cursors@[other],
                        other,
                        block as int,
                        at + 1,
                    ) by {
                        assert(cursor_agrees(
                            offsets@,
                            values@,
                            other_offsets@,
                            other_values@,
                            before[other],
                            other,
                            block as int,
                            at as int,
                        ));
                        assert forall|b: int| #[trigger]
                            passed(offsets@, values@, cursors@[other], other, b) <==> matched(
                                other_offsets@,
                                other_values@,
                                other,
                                b,
                                block as int,
                                at + 1,
                            ) by {
                            lemma_matched_step(
                                other_offsets@,
                                other_values@,
                                other,
                                b,
                                block as int,
                                at as int,
                            );
                            if b == block && other == a {
                                assert(other_values@[at - 1] == a);
                                assert(matched(
                                    other_offsets@,
                                    other_values@,
                                    other,
                                    b,
                                    block as int,
                                    at as int,
                                ));
                            }
                        }
                    }
                }
            } else {
                let cursor: u64 = cursors[a];
                proof {
                    assert(cursor_agrees(
                        offsets@,
                        values@,
                        other_offsets@,
                        other_values@,
                        before[a as int],
                        a as int,
                        block as int,
                        at as int,
                    ));
                    lemma_row_bounds(offsets@, values@.len(), a as int);
                    if exists|k: int| begin <= k < at && #[trigger] other_values@[k] == a {
                        let k = choose|k: int| begin <= k < at && #[trigger] other_values@[k] == a;
                        assert(other_values@[k] <= other_values@[at - 1]);
                        assert(other_values@[at - 1] <= other_values@[at as int]);
                    }
                }
                if cursor >= offsets[a + 1] || values[cursor as usize] != block as u32 {
                    proof {
                        lemma_disagreement(
                            offsets@,
                            values@,
                            other_offsets@,
                            other_values@,
                            cursor,
                            a as int,
                            block as int,
                            at as int,
                        );
                    }
                    return false;
                }
                cursors.set(a, cursor + 1);
                proof {
                    assert forall|other: int| 0 <= other < rows implies #[trigger] cursor_agrees(
                        offsets@,
                        values@,
                        other_offsets@,
                        other_values@,
                        cursors@[other],
                        other,
                        block as int,
                        at + 1,
                    ) by {
                        assert(cursor_agrees(
                            offsets@,
                            values@,
                            other_offsets@,
                            other_values@,
                            before[other],
                            other,
                            block as int,
                            at as int,
                        ));
                        assert forall|b: int| #[trigger]
                            passed(offsets@, values@, cursors@[other], other, b) <==> matched(
                                other_offsets@,
                                other_values@,
                                other,
                                b,
                                block as int,
                                at + 1,
                            ) by {
                            lemma_matched_step(
                                other_offsets@,
                                other_values@,
                                other,
                                b,
                                block as int,
                                at as int,
                            );
                            assert(passed(offsets@, values@, before[other], other, b) <==> matched(
                                other_offsets@,
                                other_values@,
                                other,
                                b,
                                block as int,
                                at as int,
                            ));
                            if other == a {
                                lemma_passed_step(offsets@, values@, cursor, other, b);
                            }
                        }
                    }
                }
            }
            at = at + 1;
        }
        proof {
            assert forall|a: int| 0 <= a < rows implies #[trigger] cursor_agrees(
                offsets@,
                values@,
                other_offsets@,
                other_values@,
                cursors@[a],
                a,
                block + 1,
                other_offsets@[block + 1] as int,
            ) by {
                assert(cursor_agrees(
                    offsets@,
                    values@,
                    other_offsets@,
                    other_values@,
                    cursors@[a],
                    a,
                    block as int,
                    at as int,
                ));
                assert forall|b: int| #[trigger]
                    passed(offsets@, values@, cursors@[a], a, b) <==> matched(
                        other_offsets@,
                        other_values@,
                        a,
                        b,
                        block + 1,
                        other_offsets@[block + 1] as int,
                    ) by {
                    lemma_matched_row_end(other_offsets@, other_values@, a, b, block as int);
                }
            }
        }
        block = block + 1;
    }
    let mut a: usize = 0;
    while a < rows
        invariant
            a <= rows,
            rows == offsets@.len() - 1,
            other_rows == other_offsets@.len() - 1,
            cursors@.len() == rows,
            is_row_table(offsets@, values@.len()),
            is_row_table(other_offsets@, other_values@.len()),
            forall|x: int|
                0 <= x < offsets@.len() - 1 ==> #[trigger] row_increases(offsets@, values@, x),
            forall|x: int|
                0 <= x < rows ==> #[trigger] cursor_agrees(
                    offsets@,
                    values@,
                    other_offsets@,
                    other_values@,
                    cursors@[x],
                    x,
                    other_rows as int,
                    other_values@.len() as int,
                ),
            forall|x: int| 0 <= x < a ==> #[trigger] cursors@[x] == offsets@[x + 1],
        decreases rows - a,
    {
        if cursors[a] != offsets[a + 1] {
            proof {
                assert(row_increases(offsets@, values@, a as int));
                assert(cursor_agrees(
                    offsets@,
                    values@,
                    other_offsets@,
                    other_values@,
                    cursors@[a as int],
                    a as int,
                    other_rows as int,
                    other_values@.len() as int,
                ));
                lemma_cursor_left(
                    offsets@,
                    values@,
                    other_offsets@,
                    other_values@,
                    cursors@[a as int],
                    a as int,
                );
            }
            return false;
        }
        a = a + 1;
    }
    proof {
        let last = other_values@.len() as int;
        assert forall|x: int, b: int| 0 <= x < rows implies (#[trigger] row_holds(
            offsets@,
            values@,
            x,
            b,
        ) <==> 0 <= b < other_rows && row_holds(other_offsets@, other_values@, b, x)) by {
            assert(cursor_agrees(
                offsets@,
                values@,
                other_offsets@,
                other_values@,
                cursors@[x],
                x,
                other_rows as int,
                last,
            ));
            assert(cursors@[x] == offsets@[x + 1]);
            assert(passed(offsets@, values@, cursors@[x], x, b) <==> matched(
                other_offsets@,
                other_values@,
                x,
                b,
                other_rows as int,
                last,
            ));
            assert(passed(offsets@, values@, cursors@[x], x, b) <==> row_holds(
                offsets@,
                values@,
                x,
                b,
            ));
        }
        assert forall|x: int, b: int|
            0 <= b < other_offsets@.len() - 1 && #[trigger] row_holds(
                other_offsets@,
                other_values@,
                b,
                x,
            ) implies row_holds(offsets@, values@, x, b) by {
            lemma_row_bounds(other_offsets@, other_values@.len(), b);
            let k = choose|k: int|
                other_offsets@[b] <= k < other_offsets@[b + 1] && #[trigger] other_values@[k] == x;
            assert(other_values@[k] < rows);
            assert(row_holds(offsets@, values@, x, b) <==> 0 <= b < other_rows && row_holds(
                other_offsets@,
                other_values@,
                b,
                x,
            ));
        }
    }
    true
}

} // verus!
