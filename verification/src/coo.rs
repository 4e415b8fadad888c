//! Coordinate lists of sparse matrices: splitting interleaved index pairs
//! into rows and columns, and finding entries by position.
use vstd::prelude::*;

verus! {

/// The entries at even positions (`parity == 0`) or odd positions
/// (`parity == 1`) of `s`, each as a machine index.
pub open spec fn every_other(s: Seq<i64>, parity: int) -> Seq<usize> {
    Seq::new(((s.len() + 1 - parity) / 2) as nat, |i: int| s[2 * i + parity] as usize)
}

/// Splits interleaved `(row, column)` indices into the row list and the
/// column list; with no values, both lists are empty.
pub fn split_index_pairs(indices: &Vec<i64>, has_values: bool) -> (r: (Vec<usize>, Vec<usize>))
    ensures
        has_values ==> r.0@ == every_other(indices@, 0) && r.1@ == every_other(indices@, 1),
        !has_values ==> r.0@.len() == 0 && r.1@.len() == 0,
{
    let mut rows: Vec<usize> = Vec::new();
    let mut cols: Vec<usize> = Vec::new();
    if !has_values {
        return (rows, cols);
    }
    let n = indices.len();
    let mut i: usize = 0;
    while i < n
        invariant
            n == indices@.len(),
            i <= n,
            rows@ == every_other(indices@.take(i as int), 0),
            cols@ == every_other(indices@.take(i as int), 1),
        decreases n - i,
    {
        let x = indices[i];
        proof {
            let t = indices@.take(i as int);
            let t1 = indices@.take(i + 1);
            assert forall|j: int| 0 <= j < t.len() implies t1[j] == #[trigger] t[j] by {}
        }
        if i % 2 == 0 {
            rows.push(x as usize);
            proof {
                let t = indices@.take(i as int);
                let t1 = indices@.take(i + 1);
                assert(every_other(t1, 0) =~= every_other(t, 0).push(x as usize)) by {
                    assert(t1[i as int] == x);
                }
                assert(every_other(t1, 1) =~= every_other(t, 1));
            }
        } else {
            cols.push(x as usize);
            proof {
                let t = indices@.take(i as int);
                let t1 = indices@.take(i + 1);
                assert(every_other(t1, 1) =~= every_other(t, 1).push(x as usize)) by {
                    assert(t1[i as int] == x);
                }
                assert(every_other(t1, 0) =~= every_other(t, 0));
            }
        }
        i = i + 1;
    }
    proof {
        assert(indices@.take(n as int) =~= indices@);
    }
    (rows, cols)
}

/// The first position at which the coordinate lists hold `(src, dst)`.
pub open spec fn first_entry(rows: Seq<usize>, cols: Seq<usize>, src: usize, dst: usize) -> Option<nat> {
    if exists|p: int| 0 <= p < rows.len() && p < cols.len() && rows[p] == src && cols[p] == dst {
        let p = choose|p: int| 0 <= p < rows.len() && p < cols.len() && rows[p] == src && cols[p] == dst
            && forall|q: int| 0 <= q < p ==> !(rows[q] == src && cols[q] == dst);
        Some(p as nat)
    } else {
        None
    }
}

/// The positions of the entries: for each `(src, dst)` in order, the first
/// position of the coordinate lists that holds it, skipping pairs they do
/// not hold.
pub open spec fn entry_positions(rows: Seq<usize>, cols: Seq<usize>, pairs: Seq<(usize, usize)>) -> Seq<usize>
    decreases pairs.len(),
{
    if pairs.len() == 0 {
        Seq::empty()
    } else {
        let prev = entry_positions(rows, cols, pairs.drop_last());
        match first_entry(rows, cols, pairs.last().0, pairs.last().1) {
            Some(p) => prev.push(p as usize),
            None => prev,
        }
    }
}

fn find_entry(rows: &Vec<usize>, cols: &Vec<usize>, src: usize, dst: usize) -> (r: Option<usize>)
    ensures
        match r {
            Some(p) => first_entry(rows@, cols@, src, dst) == Some(p as nat),
            None => first_entry(rows@, cols@, src, dst) is None,
        },
{
    let mut p: usize = 0;
    while p < rows.len() && p < cols.len()
        invariant
            p <= rows@.len(),
            forall|q: int| 0 <= q < p ==> !(rows@[q] == src && cols@[q] == dst),
        decreases rows@.len() - p,
    {
        if rows[p] == src && cols[p] == dst {
            proof {
                let c = choose|c: int| 0 <= c < rows@.len() && c < cols@.len() && rows@[c] == src && cols@[c] == dst
                    && forall|q: int| 0 <= q < c ==> !(rows@[q] == src && cols@[q] == dst);
                assert(c == p as int) by {
                    if c < p {
                        assert(!(rows@[c] == src && cols@[c] == dst));
                    }
                    if c > p {
                        assert(!(rows@[p as int] == src && cols@[p as int] == dst));
                    }
                }
            }
            return Some(p);
        }
        p = p + 1;
    }
    None
}

/// For each `(src, dst)` of `pairs`, in order, the first position at which
/// the coordinate lists `rows` and `cols` hold it; pairs they do not hold
/// are skipped.
pub fn entry_positions_of(rows: &Vec<usize>, cols: &Vec<usize>, pairs: &Vec<(usize, usize)>) -> (r: Vec<usize>)
    ensures
        r@ == entry_positions(rows@, cols@, pairs@),
{
    let mut out: Vec<usize> = Vec::new();
    let mut k: usize = 0;
    proof {
        assert(pairs@.take(0) =~= Seq::<(usize, usize)>::empty());
    }
    while k < pairs.len()
        invariant
            k <= pairs@.len(),
            out@ == entry_positions(rows@, cols@, pairs@.take(k as int)),
        decreases pairs@.len() - k,
    {
        let (src, dst) = pairs[k];
        proof {
            assert(pairs@.take(k + 1).drop_last() =~= pairs@.take(k as int));
            assert(pairs@.take(k + 1).last() == (src, dst));
        }
        match find_entry(rows, cols, src, dst) {
            Some(p) => {
                out.push(p);
            },
            None => {},
        }
        k = k + 1;
    }
    proof {
        assert(pairs@.take(k as int) =~= pairs@);
    }
    out
}

} // verus!
