//! Flat answers of the chemistry toolkit, cut into the rows they stand for.

use vstd::prelude::*;

verus! {

/// The sum of a sequence of lengths.
pub open spec fn total(lens: Seq<usize>) -> nat
    decreases lens.len(),
{
    if lens.len() == 0 {
        0
    } else {
        total(lens.drop_last()) + lens.last() as nat
    }
}

/// Rows as plain values.
pub open spec fn rows_view<T>(rows: Seq<Vec<T>>) -> Seq<Seq<T>> {
    Seq::new(rows.len(), |r: int| rows[r]@)
}

/// A sequence cut into rows of `width` items; the last row is shorter where
/// the items do not fill it.
pub open spec fn chunks<T>(flat: Seq<T>, width: nat) -> Seq<Seq<T>>
    decreases flat.len(),
{
    if flat.len() == 0 || width == 0 {
        Seq::empty()
    } else if flat.len() <= width {
        seq![flat]
    } else {
        seq![flat.take(width as int)] + chunks(flat.skip(width as int), width)
    }
}

/// The sum of some lengths is at least the sum of the first of them.
proof fn lemma_total_take(lens: Seq<usize>, r: int)
    requires
        0 <= r <= lens.len(),
    ensures
        total(lens.take(r)) <= total(lens),
        r < lens.len() ==> total(lens.take(r)) + lens[r] <= total(lens),
    decreases lens.len() - r,
{
    if r < lens.len() {
        assert(lens.take(r + 1).drop_last() =~= lens.take(r));
        lemma_total_take(lens, r + 1);
    } else {
        assert(lens.take(r) =~= lens);
    }
}

/// Cuts a flat vector into rows of the given lengths: row `r` holds the
/// next `lens[r]` items. Together the rows hold the items of `flat`, in
/// their order.
pub fn regroup<T>(flat: Vec<T>, lens: &Vec<usize>) -> (rows: Vec<Vec<T>>)
    requires
        total(lens@) == flat@.len(),
    ensures
        rows@.len() == lens@.len(),
        forall|r: int| 0 <= r < rows@.len() ==> (#[trigger] rows@[r])@.len() == lens@[r],
        rows_view(rows@).flatten() == flat@,
{
    let mut rows: Vec<Vec<T>> = Vec::new();
    let mut rest = flat;
    let mut r: usize = 0;
    assert(rows_view(rows@) =~= Seq::empty());
    assert(lens@.take(0) =~= Seq::empty());
    while r < lens.len()
        invariant
            r <= lens.len(),
            rows@.len() == r,
            total(lens@) == flat@.len(),
            forall|k: int| 0 <= k < rows@.len() ==> (#[trigger] rows@[k])@.len() == lens@[k],
            rows_view(rows@).flatten_alt() + rest@ == flat@,
            rows_view(rows@).flatten_alt().len() == total(lens@.take(r as int)),
        decreases lens.len() - r,
    {
        proof {
            lemma_total_take(lens@, r as int);
            assert(lens@.take(r + 1).drop_last() =~= lens@.take(r as int));
        }
        let ghost before = rows_view(rows@);
        let ghost whole = rest@;
        let tail = rest.split_off(lens[r]);
        rows.push(rest);
        rest = tail;
        proof {
            assert(rows_view(rows@).drop_last() =~= before);
            assert(rows_view(rows@).last() == whole.subrange(0, lens@[r as int] as int));
            assert(rows_view(rows@).flatten_alt() + rest@ =~= before.flatten_alt() + whole);
        }
        r = r + 1;
    }
    proof {
        assert(lens@.take(r as int) =~= lens@);
        assert(rest@.len() == 0);
        assert(rows_view(rows@).flatten_alt() =~= flat@);
        rows_view(rows@).lemma_flatten_and_flatten_alt_are_equivalent();
    }
    rows
}

/// Cuts a flat slice into rows of `width` items, the last row shorter where
/// the items do not fill it.
pub fn chunk_rows(flat: &[usize], width: usize) -> (rows: Vec<Vec<usize>>)
    requires
        width > 0,
    ensures
        rows_view(rows@) == chunks(flat@, width as nat),
{
    let mut rows: Vec<Vec<usize>> = Vec::new();
    let mut start: usize = 0;
    assert(flat@.skip(0) =~= flat@);
    while start < flat.len()
        invariant
            start <= flat.len(),
            width > 0,
            rows_view(rows@) + chunks(flat@.skip(start as int), width as nat) == chunks(
                flat@,
                width as nat,
            ),
        decreases flat.len() - start,
    {
        let end = if flat.len() - start <= width {
            flat.len()
        } else {
            start + width
        };
        let ghost rest = flat@.skip(start as int);
        let ghost before = rows_view(rows@);
        let mut row: Vec<usize> = Vec::new();
        let mut i = start;
        while i < end
            invariant
                start <= i <= end <= flat.len(),
                row@ == flat@.subrange(start as int, i as int),
            decreases end - i,
        {
            row.push(flat[i]);
            assert(row@ =~= flat@.subrange(start as int, i + 1));
            i = i + 1;
        }
        rows.push(row);
        proof {
            assert(rows_view(rows@) =~= before.push(row@));
            if end == flat.len() {
                assert(row@ =~= rest);
                assert(flat@.skip(end as int) =~= Seq::empty());
                assert(before.push(row@) + chunks(flat@.skip(end as int), width as nat)
                    =~= before + seq![rest]);
            } else {
                assert(row@ =~= rest.take(width as int));
                assert(rest.skip(width as int) =~= flat@.skip(end as int));
                assert(before.push(row@) + chunks(flat@.skip(end as int), width as nat)
                    =~= before + (seq![rest.take(width as int)] + chunks(
                    rest.skip(width as int),
                    width as nat,
                )));
            }
        }
        start = end;
    }
    assert(rows_view(rows@) + chunks(flat@.skip(start as int), width as nat) =~= rows_view(rows@));
    rows
}

} // verus!
