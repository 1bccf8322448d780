//! The text layout of one bar of a barcode, once its ends have been placed on the
//! columns of the picture.
use vstd::prelude::*;

verus! {

/// The number of marks drawn for a bar from column `start` to column `end`: one per
/// column it spans, and at least one.
pub open spec fn mark_count(start: nat, end: nat) -> nat {
    if end > start {
        (end - start) as nat
    } else {
        1
    }
}

/// The line drawn for a bar: blanks up to its start, its marks, and an arrow to
/// infinity after a bar that never dies.
pub open spec fn bar_line_text(start: nat, end: nat, essential: bool) -> Seq<char> {
    Seq::new(start, |i: int| ' ') + Seq::new(mark_count(start, end), |i: int| '|') + if essential {
        seq!['\u{2192}', '\u{221e}']
    } else {
        Seq::empty()
    }
}

/// The line of a bar that starts at column `start` and ends at column `end`.
pub fn bar_line(start: usize, end: usize, essential: bool) -> (line: Vec<char>)
    requires
        start <= end,
    ensures
        line@ == bar_line_text(start as nat, end as nat, essential),
        // blanks up to the start, then one mark per column spanned and at least one
        line@.len() == start + (if end > start {
            end - start
        } else {
            1
        }) + (if essential {
            2int
        } else {
            0int
        }),
        forall|i: int| 0 <= i < start ==> line@[i] == ' ',
        forall|i: int|
            start <= i < start + (if end > start {
                end - start
            } else {
                1
            }) ==> line@[i] == '|',
        // a bar that never dies ends in an arrow to infinity, a finite one in a mark
        essential ==> line@[line@.len() - 2] == '\u{2192}' && line@[line@.len() - 1] == '\u{221e}',
        !essential ==> line@[line@.len() - 1] == '|',
{
    let mut line: Vec<char> = Vec::new();
    for i in 0..start
        invariant
            line@ == Seq::new(i as nat, |k: int| ' '),
    {
        line.push(' ');
    }
    let marks: usize = if end > start { end - start } else { 1 };
    for i in 0..marks
        invariant
            line@ == Seq::new(start as nat, |k: int| ' ') + Seq::new(i as nat, |k: int| '|'),
    {
        line.push('|');
        proof {
            assert(Seq::new((i + 1) as nat, |k: int| '|') =~= Seq::new(i as nat, |k: int| '|').push('|'));
        }
    }
    if essential {
        line.push('\u{2192}');
        line.push('\u{221e}');
    }
    proof {
        let base = Seq::new(start as nat, |k: int| ' ') + Seq::new(mark_count(start as nat, end as nat), |k: int| '|');
        if essential {
            assert(line@ =~= base + seq!['\u{2192}', '\u{221e}']);
        } else {
            assert(line@ =~= base + Seq::<char>::empty());
        }
    }
    line
}

} // verus!
