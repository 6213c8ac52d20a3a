//! The fillings of one line: every way to lay the runs of a hint list into a
//! line of cells, and what all of them have in common.

use vstd::prelude::*;
use crate::common::{Hint, Mask};
use crate::bitop::{
    bit, disjoint, includes, low_bits, run_mask, group_mask_bits, lemma_disjoint_bits,
    lemma_includes_bits, lemma_mask_ext, lemma_subset_reflexive,
};

verus! {

/// `m` leaves the cells of `white` clear and covers the cells of `black`.
pub open spec fn compatible(m: Mask, white: Mask, black: Mask) -> bool {
    disjoint(m, white) && includes(m, black)
}

/// The fillings that extend `cur` by the runs `hints[k..]`, each run starting
/// at cell `pos` or later, after the one before it and a gap, and ending
/// inside the line; kept are those compatible with `white` and `black`.
/// They come ordered by the start of the first run, then of the second, and
/// so on. A hint of zero lays no cell but takes a place of its own in the
/// line, apart from the runs beside it.
pub open spec fn fillings(
    width: int,
    hints: Seq<Hint>,
    k: int,
    pos: int,
    cur: Mask,
    white: Mask,
    black: Mask,
) -> Seq<Mask>
    decreases hints.len() - k, width + 1 - pos,
{
    if k < 0 || pos < 0 {
        Seq::empty()
    } else if k >= hints.len() {
        if compatible(cur, white, black) {
            seq![cur]
        } else {
            Seq::empty()
        }
    } else if pos + hints[k] > width {
        Seq::empty()
    } else {
        fillings(
            width,
            hints,
            k + 1,
            pos + hints[k] + 1,
            cur | run_mask(pos, hints[k] as int),
            white,
            black,
        ) + fillings(width, hints, k, pos + 1, cur, white, black)
    }
}

/// The fillings of a whole line of `width` cells.
pub open spec fn line_fillings(width: int, hints: Seq<Hint>, white: Mask, black: Mask) -> Seq<
    Mask,
> {
    fillings(width, hints, 0, 0, 0, white, black)
}

/// `init` with every mask of `s` intersected into it.
pub open spec fn and_all(s: Seq<Mask>, init: Mask) -> Mask
    decreases s.len(),
{
    if s.len() == 0 {
        init
    } else {
        and_all(s.drop_last(), init) & s.last()
    }
}

/// `init` with every mask of `s` united into it.
pub open spec fn or_all(s: Seq<Mask>, init: Mask) -> Mask
    decreases s.len(),
{
    if s.len() == 0 {
        init
    } else {
        or_all(s.drop_last(), init) | s.last()
    }
}

/// The cells of the line that all masks of `s` have.
pub open spec fn common_black(s: Seq<Mask>, width: int) -> Mask {
    and_all(s, low_bits(width))
}

/// The cells of the line that no mask of `s` has.
pub open spec fn common_white(s: Seq<Mask>, width: int) -> Mask {
    !or_all(s, 0) & low_bits(width)
}

/// The cells that are black in every filling of the line.
pub open spec fn must_black(width: int, hints: Seq<Hint>, white: Mask, black: Mask) -> Mask {
    common_black(line_fillings(width, hints, white, black), width)
}

/// The cells of the line that are white in every filling of the line.
pub open spec fn must_white(width: int, hints: Seq<Hint>, white: Mask, black: Mask) -> Mask {
    common_white(line_fillings(width, hints, white, black), width)
}

/// The line solver finds nothing new in the line: the line has a filling,
/// and what all its fillings have in common is known already.
pub open spec fn line_settled(width: int, hints: Seq<Hint>, white: Mask, black: Mask) -> bool {
    &&& line_fillings(width, hints, white, black).len() > 0
    &&& includes(black, must_black(width, hints, white, black))
    &&& includes(white, must_white(width, hints, white, black))
}

/// Folding a concatenation is folding its parts in turn.
pub proof fn lemma_and_all_concat(a: Seq<Mask>, b: Seq<Mask>, init: Mask)
    ensures
        and_all(a + b, init) == and_all(b, and_all(a, init)),
    decreases b.len(),
{
    if b.len() == 0 {
        assert(a + b =~= a);
    } else {
        assert((a + b).drop_last() =~= a + b.drop_last());
        lemma_and_all_concat(a, b.drop_last(), init);
    }
}

/// Folding a concatenation is folding its parts in turn.
pub proof fn lemma_or_all_concat(a: Seq<Mask>, b: Seq<Mask>, init: Mask)
    ensures
        or_all(a + b, init) == or_all(b, or_all(a, init)),
    decreases b.len(),
{
    if b.len() == 0 {
        assert(a + b =~= a);
    } else {
        assert((a + b).drop_last() =~= a + b.drop_last());
        lemma_or_all_concat(a, b.drop_last(), init);
    }
}

/// A cell is in the intersection exactly if it is in `init` and in every mask.
pub proof fn lemma_and_all_bits(s: Seq<Mask>, init: Mask, j: int)
    ensures
        bit(and_all(s, init), j) == (bit(init, j) && forall|i: int|
            0 <= i < s.len() ==> bit(#[trigger] s[i], j)),
    decreases s.len(),
{
    broadcast use group_mask_bits;

    if s.len() > 0 {
        let t = s.drop_last();
        lemma_and_all_bits(t, init, j);
        if bit(and_all(s, init), j) {
            assert forall|i: int| 0 <= i < s.len() implies bit(#[trigger] s[i], j) by {
                if i < t.len() {
                    assert(s[i] == t[i]);
                }
            }
        } else if bit(init, j) {
            if bit(s.last(), j) {
                let i = choose|i: int| 0 <= i < t.len() && !bit(#[trigger] t[i], j);
                assert(s[i] == t[i]);
            }
        }
    }
}

/// A cell is in the union exactly if it is in `init` or in one of the masks.
pub proof fn lemma_or_all_bits(s: Seq<Mask>, init: Mask, j: int)
    ensures
        bit(or_all(s, init), j) == (bit(init, j) || exists|i: int|
            0 <= i < s.len() && bit(#[trigger] s[i], j)),
    decreases s.len(),
{
    broadcast use group_mask_bits;

    if s.len() > 0 {
        let t = s.drop_last();
        lemma_or_all_bits(t, init, j);
        if bit(or_all(s, init), j) {
            if bit(s.last(), j) {
                assert(bit(s[s.len() - 1], j));
            } else if !bit(init, j) {
                let i = choose|i: int| 0 <= i < t.len() && bit(#[trigger] t[i], j);
                assert(s[i] == t[i]);
            }
        } else {
            assert forall|i: int| 0 <= i < s.len() implies !bit(#[trigger] s[i], j) by {
                if i < t.len() {
                    assert(s[i] == t[i]);
                }
            }
        }
    }
}

/// Every filling is compatible with the known cells, agrees with `cur` on the
/// cells before `pos`, and stays inside the line.
pub proof fn lemma_filling_extends(
    width: int,
    hints: Seq<Hint>,
    k: int,
    pos: int,
    cur: Mask,
    white: Mask,
    black: Mask,
    idx: int,
)
    requires
        width < 64,
        0 <= pos <= width + 1,
        includes(low_bits(pos), cur),
        includes(low_bits(width), cur),
        0 <= idx < fillings(width, hints, k, pos, cur, white, black).len(),
    ensures
        compatible(fillings(width, hints, k, pos, cur, white, black)[idx], white, black),
        fillings(width, hints, k, pos, cur, white, black)[idx] & low_bits(pos) == cur,
        includes(low_bits(width), fillings(width, hints, k, pos, cur, white, black)[idx]),
    decreases hints.len() - k, width + 1 - pos,
{
    broadcast use group_mask_bits;

    let all = fillings(width, hints, k, pos, cur, white, black);
    let m = all[idx];
    lemma_includes_bits(low_bits(pos), cur);
    lemma_includes_bits(low_bits(width), cur);
    if k >= hints.len() {
        assert(m == cur);
        assert forall|j: int| 0 <= j < 64 implies bit(m & low_bits(pos), j) == bit(cur, j) by {}
        lemma_mask_ext(m & low_bits(pos), cur);
    } else {
        let h = hints[k] as int;
        let next = cur | run_mask(pos, h);
        let placed = fillings(width, hints, k + 1, pos + h + 1, next, white, black);
        let rest = fillings(width, hints, k, pos + 1, cur, white, black);
        assert(all == placed + rest);
        if idx < placed.len() {
            assert(m == placed[idx]);
            assert forall|j: int| bit(next, j) implies bit(low_bits(pos + h + 1), j) && bit(
                low_bits(width),
                j,
            ) by {}
            lemma_includes_bits(low_bits(pos + h + 1), next);
            lemma_includes_bits(low_bits(width), next);
            lemma_filling_extends(width, hints, k + 1, pos + h + 1, next, white, black, idx);
            assert forall|j: int| 0 <= j < 64 implies bit(m & low_bits(pos), j) == bit(cur, j) by {
                assert(bit(m & low_bits(pos + h + 1), j) == bit(next, j));
            }
            lemma_mask_ext(m & low_bits(pos), cur);
        } else {
            assert(m == rest[idx - placed.len()]);
            lemma_includes_bits(low_bits(pos + 1), cur);
            lemma_filling_extends(width, hints, k, pos + 1, cur, white, black, idx - placed.len());
            assert forall|j: int| 0 <= j < 64 implies bit(m & low_bits(pos), j) == bit(cur, j) by {
                assert(bit(m & low_bits(pos + 1), j) == bit(cur, j));
            }
            lemma_mask_ext(m & low_bits(pos), cur);
        }
    }
}

/// A mask is in a concatenation exactly if it is in one of the parts.
pub proof fn lemma_contains_concat(a: Seq<Mask>, b: Seq<Mask>, m: Mask)
    ensures
        (a + b).contains(m) <==> (a.contains(m) || b.contains(m)),
{
    if a.contains(m) {
        let i = choose|i: int| 0 <= i < a.len() && a[i] == m;
        assert((a + b)[i] == m);
    }
    if b.contains(m) {
        let i = choose|i: int| 0 <= i < b.len() && b[i] == m;
        assert((a + b)[a.len() + i] == m);
    }
    if (a + b).contains(m) {
        let i = choose|i: int| 0 <= i < (a + b).len() && (a + b)[i] == m;
        if i < a.len() {
            assert(a[i] == m);
        } else {
            assert(b[i - a.len()] == m);
        }
    }
}

/// The fillings under known cells are the fillings under no knowledge that
/// are compatible with the known cells.
pub proof fn lemma_filling_filter(
    width: int,
    hints: Seq<Hint>,
    k: int,
    pos: int,
    cur: Mask,
    white: Mask,
    black: Mask,
    m: Mask,
)
    ensures
        fillings(width, hints, k, pos, cur, white, black).contains(m) <==> (fillings(
            width,
            hints,
            k,
            pos,
            cur,
            0,
            0,
        ).contains(m) && compatible(m, white, black)),
    decreases hints.len() - k, width + 1 - pos,
{
    let found = fillings(width, hints, k, pos, cur, white, black);
    let free = fillings(width, hints, k, pos, cur, 0, 0);
    if k < 0 || pos < 0 {
    } else if k >= hints.len() {
        assert(cur & 0 == 0) by (bit_vector);
        assert(free =~= seq![cur]);
        assert(free[0] == cur);
        if compatible(cur, white, black) {
            assert(found =~= seq![cur]);
            assert(found[0] == cur);
        }
    } else if pos + hints[k] > width {
    } else {
        let h = hints[k] as int;
        let next = cur | crate::bitop::run_mask(pos, h);
        lemma_filling_filter(width, hints, k + 1, pos + h + 1, next, white, black, m);
        lemma_filling_filter(width, hints, k, pos + 1, cur, white, black, m);
        lemma_contains_concat(
            fillings(width, hints, k + 1, pos + h + 1, next, white, black),
            fillings(width, hints, k, pos + 1, cur, white, black),
            m,
        );
        lemma_contains_concat(
            fillings(width, hints, k + 1, pos + h + 1, next, 0, 0),
            fillings(width, hints, k, pos + 1, cur, 0, 0),
            m,
        );
    }
}

/// A cell is common black exactly if it is in the line and in every mask.
pub proof fn lemma_common_black_bits(s: Seq<Mask>, width: int, j: int)
    ensures
        bit(common_black(s, width), j) == (0 <= j < width && j < 64 && forall|m: Mask|
            s.contains(m) ==> bit(m, j)),
{
    broadcast use group_mask_bits;

    lemma_and_all_bits(s, low_bits(width), j);
    if bit(common_black(s, width), j) {
        assert forall|m: Mask| s.contains(m) implies bit(m, j) by {
            let i = choose|i: int| 0 <= i < s.len() && s[i] == m;
            assert(bit(s[i], j));
        }
    }
    if 0 <= j < width && j < 64 && forall|m: Mask| s.contains(m) ==> bit(m, j) {
        assert forall|i: int| 0 <= i < s.len() implies bit(#[trigger] s[i], j) by {
            assert(s.contains(s[i]));
        }
    }
}

/// A cell is common white exactly if it is in the line and in no mask.
pub proof fn lemma_common_white_bits(s: Seq<Mask>, width: int, j: int)
    ensures
        bit(common_white(s, width), j) == (0 <= j < width && j < 64 && forall|m: Mask|
            s.contains(m) ==> !bit(m, j)),
{
    broadcast use group_mask_bits;

    lemma_or_all_bits(s, 0, j);
    if bit(common_white(s, width), j) {
        assert forall|m: Mask| s.contains(m) implies !bit(m, j) by {
            let i = choose|i: int| 0 <= i < s.len() && s[i] == m;
            assert(!bit(s[i], j));
        }
    }
    if 0 <= j < width && j < 64 && forall|m: Mask| s.contains(m) ==> !bit(m, j) {
        if bit(or_all(s, 0), j) {
            let i = choose|i: int| 0 <= i < s.len() && bit(#[trigger] s[i], j);
            assert(s.contains(s[i]));
        }
    }
}

/// Fewer masks have more in common.
pub proof fn lemma_common_monotone(s: Seq<Mask>, t: Seq<Mask>, width: int)
    requires
        forall|m: Mask| t.contains(m) ==> s.contains(m),
    ensures
        includes(common_black(t, width), common_black(s, width)),
        includes(common_white(t, width), common_white(s, width)),
{
    assert forall|j: int| bit(common_black(s, width), j) implies bit(
        common_black(t, width),
        j,
    ) by {
        lemma_common_black_bits(s, width, j);
        lemma_common_black_bits(t, width, j);
    }
    lemma_includes_bits(common_black(t, width), common_black(s, width));
    assert forall|j: int| bit(common_white(s, width), j) implies bit(
        common_white(t, width),
        j,
    ) by {
        lemma_common_white_bits(s, width, j);
        lemma_common_white_bits(t, width, j);
    }
    lemma_includes_bits(common_white(t, width), common_white(s, width));
}

/// With more known of a line, the line has no filling that it had not
/// before, so no less is forced.
pub proof fn lemma_line_monotone(
    width: int,
    hints: Seq<Hint>,
    white: Mask,
    black: Mask,
    more_white: Mask,
    more_black: Mask,
)
    requires
        includes(more_white, white),
        includes(more_black, black),
    ensures
        forall|m: Mask|
            line_fillings(width, hints, more_white, more_black).contains(m) ==> line_fillings(
                width,
                hints,
                white,
                black,
            ).contains(m),
        includes(
            must_black(width, hints, more_white, more_black),
            must_black(width, hints, white, black),
        ),
        includes(
            must_white(width, hints, more_white, more_black),
            must_white(width, hints, white, black),
        ),
{
    let s = line_fillings(width, hints, white, black);
    let t = line_fillings(width, hints, more_white, more_black);
    assert forall|m: Mask| t.contains(m) implies s.contains(m) by {
        lemma_filling_filter(width, hints, 0, 0, 0, white, black, m);
        lemma_filling_filter(width, hints, 0, 0, 0, more_white, more_black, m);
        lemma_compatible_weaker(m, white, black, more_white, more_black);
    }
    lemma_common_monotone(s, t, width);
}

/// What is compatible with more is compatible with less.
pub proof fn lemma_compatible_weaker(
    m: Mask,
    white: Mask,
    black: Mask,
    more_white: Mask,
    more_black: Mask,
)
    requires
        includes(more_white, white),
        includes(more_black, black),
        compatible(m, more_white, more_black),
    ensures
        compatible(m, white, black),
{
    broadcast use group_mask_bits;

    lemma_includes_bits(more_white, white);
    lemma_includes_bits(more_black, black);
    lemma_includes_bits(m, more_black);
    lemma_disjoint_bits(m, more_white);
    lemma_includes_bits(m, black);
    lemma_disjoint_bits(m, white);
}

/// Once what the line solver found is recorded in a line, the line is
/// settled, and its masks are still disjoint and inside the line.
pub proof fn lemma_line_settles(width: int, hints: Seq<Hint>, white: Mask, black: Mask)
    requires
        0 <= width < 64,
        line_fillings(width, hints, white, black).len() > 0,
    ensures
        line_settled(
            width,
            hints,
            white | must_white(width, hints, white, black),
            black | must_black(width, hints, white, black),
        ),
        disjoint(
            black | must_black(width, hints, white, black),
            white | must_white(width, hints, white, black),
        ),
        includes(low_bits(width), must_black(width, hints, white, black)),
        includes(low_bits(width), must_white(width, hints, white, black)),
{
    broadcast use group_mask_bits;

    let s = line_fillings(width, hints, white, black);
    let mb = must_black(width, hints, white, black);
    let mw = must_white(width, hints, white, black);
    let t = line_fillings(width, hints, white | mw, black | mb);
    let first = s[0];
    assert(s.contains(first));
    lemma_includes_bits(low_bits(0), 0);
    lemma_includes_bits(low_bits(width), 0);
    lemma_filling_extends(width, hints, 0, 0, 0, white, black, 0);
    lemma_includes_bits(first, black);
    lemma_disjoint_bits(first, white);
    assert forall|j: int| 0 <= j < 64 implies (bit(mb, j) ==> bit(first, j)) && (bit(mw, j)
        ==> !bit(first, j)) && (bit(mb, j) ==> j < width) && (bit(mw, j) ==> j < width) by {
        lemma_common_black_bits(s, width, j);
        lemma_common_white_bits(s, width, j);
    }
    assert forall|j: int| !(bit(black | mb, j) && bit(white | mw, j)) by {}
    lemma_disjoint_bits(black | mb, white | mw);
    assert forall|j: int| bit(mb, j) implies bit(low_bits(width), j) by {}
    assert forall|j: int| bit(mw, j) implies bit(low_bits(width), j) by {}
    lemma_includes_bits(low_bits(width), mb);
    lemma_includes_bits(low_bits(width), mw);
    // The line keeps all its fillings.
    assert forall|m: Mask| s.contains(m) implies t.contains(m) by {
        lemma_filling_filter(width, hints, 0, 0, 0, white, black, m);
        lemma_filling_filter(width, hints, 0, 0, 0, white | mw, black | mb, m);
        lemma_includes_bits(m, black);
        lemma_disjoint_bits(m, white);
        assert forall|j: int| 0 <= j < 64 implies (bit(mb, j) ==> bit(m, j)) && (bit(mw, j)
            ==> !bit(m, j)) by {
            lemma_common_black_bits(s, width, j);
            lemma_common_white_bits(s, width, j);
        }
        assert forall|j: int| bit(black | mb, j) implies bit(m, j) by {}
        assert forall|j: int| !(bit(m, j) && bit(white | mw, j)) by {}
        lemma_includes_bits(m, black | mb);
        lemma_disjoint_bits(m, white | mw);
    }
    assert(t.len() > 0) by {
        assert(t.contains(first));
    }
    lemma_common_monotone(t, s, width);
    assert forall|j: int| bit(must_black(width, hints, white | mw, black | mb), j) implies bit(
        black | mb,
        j,
    ) by {
        lemma_includes_bits(
            common_black(s, width),
            common_black(t, width),
        );
    }
    lemma_includes_bits(black | mb, must_black(width, hints, white | mw, black | mb));
    assert forall|j: int| bit(must_white(width, hints, white | mw, black | mb), j) implies bit(
        white | mw,
        j,
    ) by {
        lemma_includes_bits(
            common_white(s, width),
            common_white(t, width),
        );
    }
    lemma_includes_bits(white | mw, must_white(width, hints, white | mw, black | mb));
}

/// A line has no filling exactly if the fold over its fillings leaves the
/// accumulators as they began.
pub proof fn lemma_no_filling(s: Seq<Mask>, width: int)
    requires
        0 < width < 64,
        forall|m: Mask| s.contains(m) ==> includes(low_bits(width), m),
    ensures
        (and_all(s, low_bits(width)) == low_bits(width) && or_all(s, 0) == 0) <==> s.len() == 0,
{
    broadcast use group_mask_bits;

    if s.len() > 0 {
        let m = s[0];
        assert(s.contains(m));
        if and_all(s, low_bits(width)) == low_bits(width) && or_all(s, 0) == 0 {
            lemma_and_all_bits(s, low_bits(width), 0);
            lemma_or_all_bits(s, 0, 0);
            assert(bit(s[0], 0));
        }
    }
}

/// Every filling of a line lies inside the line.
pub proof fn lemma_line_fillings_inside(
    width: int,
    hints: Seq<Hint>,
    white: Mask,
    black: Mask,
    m: Mask,
)
    requires
        0 <= width < 64,
        line_fillings(width, hints, white, black).contains(m),
    ensures
        includes(low_bits(width), m),
        compatible(m, white, black),
{
    broadcast use group_mask_bits;

    let s = line_fillings(width, hints, white, black);
    let i = choose|i: int| 0 <= i < s.len() && s[i] == m;
    lemma_includes_bits(low_bits(0), 0);
    lemma_includes_bits(low_bits(width), 0);
    lemma_filling_extends(width, hints, 0, 0, 0, white, black, i);
}

/// A line without hints has the empty mask for its one filling, and no
/// filling at all where a cell of it is known black.
pub proof fn lemma_no_hints(width: int, white: Mask, black: Mask)
    ensures
        line_fillings(width, Seq::empty(), white, black) == if black == 0 {
            seq![0u64]
        } else {
            Seq::empty()
        },
{
    broadcast use group_mask_bits;

    lemma_disjoint_bits(0, white);
    lemma_includes_bits(0, black);
    if includes(0, black) {
        assert forall|j: int| 0 <= j < 64 implies bit(black, j) == bit(0, j) by {}
        lemma_mask_ext(black, 0);
    }
}

/// What the line solver reports as black is what every filling of the line
/// has, and what it reports as white is what no filling of the line has.
pub proof fn lemma_forced_cells(width: int, hints: Seq<Hint>, white: Mask, black: Mask, j: int)
    ensures
        bit(must_black(width, hints, white, black), j) == (0 <= j < width && j < 64
            && forall|m: Mask|
            line_fillings(width, hints, white, black).contains(m) ==> bit(m, j)),
        bit(must_white(width, hints, white, black), j) == (0 <= j < width && j < 64
            && forall|m: Mask|
            line_fillings(width, hints, white, black).contains(m) ==> !bit(m, j)),
{
    lemma_common_black_bits(line_fillings(width, hints, white, black), width, j);
    lemma_common_white_bits(line_fillings(width, hints, white, black), width, j);
}

/// A complete line that is one of its own fillings is settled.
pub proof fn lemma_complete_line_settled(width: int, hints: Seq<Hint>, white: Mask, black: Mask)
    requires
        0 <= width < 64,
        line_fillings(width, hints, 0, 0).contains(black),
        disjoint(black, white),
        includes(low_bits(width), white),
        forall|j: int| 0 <= j < width ==> bit(black, j) || bit(white, j),
    ensures
        line_settled(width, hints, white, black),
{
    broadcast use group_mask_bits;

    let s = line_fillings(width, hints, white, black);
    lemma_subset_reflexive(black);
    lemma_filling_filter(width, hints, 0, 0, 0, white, black, black);
    lemma_disjoint_bits(black, white);
    lemma_includes_bits(low_bits(width), white);
    assert forall|m: Mask| s.contains(m) implies m == black by {
        lemma_line_fillings_inside(width, hints, white, black, m);
        lemma_includes_bits(low_bits(width), m);
        lemma_includes_bits(m, black);
        lemma_disjoint_bits(m, white);
        assert forall|j: int| 0 <= j < 64 implies bit(m, j) == bit(black, j) by {}
        lemma_mask_ext(m, black);
    }
    assert forall|j: int| bit(must_black(width, hints, white, black), j) implies bit(black, j) by {
        lemma_common_black_bits(s, width, j);
    }
    lemma_includes_bits(black, must_black(width, hints, white, black));
    assert forall|j: int| bit(must_white(width, hints, white, black), j) implies bit(white, j) by {
        lemma_common_white_bits(s, width, j);
    }
    lemma_includes_bits(white, must_white(width, hints, white, black));
}

} // verus!
