//! Selecting fields by signed 1-based column numbers: direct selection keeps
//! the specification's order and duplicates; complement selection removes the
//! named positions and keeps the original order of the rest.

use vstd::prelude::*;

verus! {

/// A signed 1-based column number as a zero-based index against a field
/// list of length `n`: positive counts from the front, negative from the end.
pub open spec fn norm_one(i: i64, n: int) -> int {
    if i > 0 {
        i - 1
    } else {
        n + i
    }
}

/// The zero-based, in-range indices a column specification resolves to
/// against a field list of length `n`: specification order, duplicates kept,
/// out-of-range entries silently dropped.
pub open spec fn spec_normalize(cols: Seq<i64>, n: int) -> Seq<int>
    decreases cols.len(),
{
    if cols.len() == 0 {
        Seq::<int>::empty()
    } else {
        let j = norm_one(cols[0], n);
        let rest = spec_normalize(cols.drop_first(), n);
        if 0 <= j && j < n {
            seq![j] + rest
        } else {
            rest
        }
    }
}

/// The fields at the given indices, in that order, duplicates repeated.
pub open spec fn spec_project(fields: Seq<Seq<char>>, idxs: Seq<int>) -> Seq<Seq<char>>
    recommends
        forall|t: int| 0 <= t < idxs.len() ==> 0 <= #[trigger] idxs[t] < fields.len(),
    decreases idxs.len(),
{
    if idxs.len() == 0 {
        Seq::<Seq<char>>::empty()
    } else {
        seq![fields[idxs[0]]] + spec_project(fields, idxs.drop_first())
    }
}

/// The fields from position `k` on whose position is not in `excl`,
/// in their original order.
pub open spec fn keep_rest(fields: Seq<Seq<char>>, excl: Seq<int>, k: int) -> Seq<Seq<char>>
    decreases fields.len() - k,
{
    if k < 0 || k >= fields.len() {
        Seq::<Seq<char>>::empty()
    } else if excl.contains(k) {
        keep_rest(fields, excl, k + 1)
    } else {
        seq![fields[k]] + keep_rest(fields, excl, k + 1)
    }
}

/// The selection a column specification produces from a field list.
/// An empty specification keeps everything (or, in complement mode,
/// nothing); otherwise direct selection projects in specification order
/// and complement selection removes the resolved positions.
pub open spec fn spec_select(fields: Seq<Seq<char>>, cols: Seq<i64>, complement: bool) -> Seq<
    Seq<char>,
> {
    if cols.len() == 0 {
        if complement {
            Seq::<Seq<char>>::empty()
        } else {
            fields
        }
    } else if complement {
        keep_rest(fields, spec_normalize(cols, fields.len() as int), 0)
    } else {
        spec_project(fields, spec_normalize(cols, fields.len() as int))
    }
}

/// Every index a specification resolves to is in range: out-of-range column
/// numbers are dropped during normalization and can never cause an error.
pub proof fn lemma_normalize_in_range(cols: Seq<i64>, n: int)
    ensures
        forall|t: int|
            0 <= t < spec_normalize(cols, n).len() ==> 0 <= #[trigger] spec_normalize(cols, n)[t]
                < n,
    decreases cols.len(),
{
    if cols.len() > 0 {
        lemma_normalize_in_range(cols.drop_first(), n);
        let j = norm_one(cols[0], n);
        let rest = spec_normalize(cols.drop_first(), n);
        if 0 <= j && j < n {
            assert forall|t: int|
                0 <= t < spec_normalize(cols, n).len() implies 0 <= #[trigger] spec_normalize(
                cols,
                n,
            )[t] < n by {
                if t == 0 {
                    assert(spec_normalize(cols, n)[0] == j);
                } else {
                    assert(spec_normalize(cols, n)[t] == rest[t - 1]);
                }
            }
        }
    }
}

/// Normalization distributes over concatenation of specifications.
proof fn lemma_normalize_add(a: Seq<i64>, b: Seq<i64>, n: int)
    ensures
        spec_normalize(a + b, n) == spec_normalize(a, n) + spec_normalize(b, n),
    decreases a.len(),
{
    if a.len() == 0 {
        assert(a + b =~= b);
        assert(Seq::<int>::empty() + spec_normalize(b, n) =~= spec_normalize(b, n));
    } else {
        lemma_normalize_add(a.drop_first(), b, n);
        assert((a + b).drop_first() =~= a.drop_first() + b);
        assert((a + b)[0] == a[0]);
        let j = norm_one(a[0], n);
        if 0 <= j && j < n {
            assert(seq![j] + (spec_normalize(a.drop_first(), n) + spec_normalize(b, n)) =~= (
            seq![j] + spec_normalize(a.drop_first(), n)) + spec_normalize(b, n));
        }
    }
}

/// What one more column contributes to the resolved index list.
proof fn lemma_normalize_push(cols: Seq<i64>, c: i64, n: int)
    ensures
        spec_normalize(cols.push(c), n) == spec_normalize(cols, n) + (if 0 <= norm_one(c, n)
            && norm_one(c, n) < n {
            seq![norm_one(c, n)]
        } else {
            Seq::<int>::empty()
        }),
{
    assert(cols.push(c) =~= cols + seq![c]);
    lemma_normalize_add(cols, seq![c], n);
    let j = norm_one(c, n);
    assert(seq![c].drop_first() =~= Seq::<i64>::empty());
    assert(spec_normalize(Seq::<i64>::empty(), n) =~= Seq::<int>::empty());
    assert(seq![c][0] == c);
    if 0 <= j && j < n {
        assert(spec_normalize(seq![c], n) =~= seq![j]);
    } else {
        assert(spec_normalize(seq![c], n) =~= Seq::<int>::empty());
    }
}

/// Membership in a resolved list extended by one entry.
proof fn lemma_contains_add(a: Seq<int>, b: Seq<int>, x: int)
    ensures
        (a + b).contains(x) == (a.contains(x) || b.contains(x)),
{
    if a.contains(x) {
        let t = choose|t: int| 0 <= t < a.len() && a[t] == x;
        assert((a + b)[t] == x);
    }
    if b.contains(x) {
        let t = choose|t: int| 0 <= t < b.len() && b[t] == x;
        assert((a + b)[a.len() + t] == x);
    }
    if (a + b).contains(x) {
        let t = choose|t: int| 0 <= t < (a + b).len() && (a + b)[t] == x;
        if t < a.len() {
            assert(a[t] == x);
        } else {
            assert(b[t - a.len()] == x);
        }
    }
}

/// Complement selection depends on the resolved positions only through
/// membership: two exclusion lists with the same members remove the same
/// positions.
proof fn lemma_keep_rest_members(fields: Seq<Seq<char>>, e1: Seq<int>, e2: Seq<int>, k: int)
    requires
        forall|x: int| e1.contains(x) == e2.contains(x),
    ensures
        keep_rest(fields, e1, k) == keep_rest(fields, e2, k),
    decreases fields.len() - k,
{
    if 0 <= k && k < fields.len() {
        lemma_keep_rest_members(fields, e1, e2, k + 1);
    }
}

/// Complement selection is insensitive to duplicates and to the order of the
/// column specification: two non-empty specifications that resolve to the
/// same set of positions select the same fields.
pub proof fn lemma_complement_insensitive(fields: Seq<Seq<char>>, c1: Seq<i64>, c2: Seq<i64>)
    requires
        c1.len() > 0,
        c2.len() > 0,
        forall|x: int|
            spec_normalize(c1, fields.len() as int).contains(x) == spec_normalize(
                c2,
                fields.len() as int,
            ).contains(x),
    ensures
        spec_select(fields, c1, true) == spec_select(fields, c2, true),
{
    lemma_keep_rest_members(
        fields,
        spec_normalize(c1, fields.len() as int),
        spec_normalize(c2, fields.len() as int),
        0,
    );
}

/// The positions `k..n` that are not in `excl`, in ascending order.
pub open spec fn kept_positions(n: int, excl: Seq<int>, k: int) -> Seq<int>
    decreases n - k,
{
    if k < 0 || k >= n {
        Seq::<int>::empty()
    } else if excl.contains(k) {
        kept_positions(n, excl, k + 1)
    } else {
        seq![k] + kept_positions(n, excl, k + 1)
    }
}

/// The kept positions are exactly the non-excluded positions in range, and
/// they are listed in strictly ascending order.
pub proof fn lemma_kept_positions_props(n: int, excl: Seq<int>, k: int)
    requires
        0 <= k,
    ensures
        forall|x: int|
            #[trigger] kept_positions(n, excl, k).contains(x) <==> (k <= x < n && !excl.contains(
                x,
            )),
        forall|a: int, b: int|
            0 <= a < b < kept_positions(n, excl, k).len() ==> #[trigger] kept_positions(
                n,
                excl,
                k,
            )[a] < #[trigger] kept_positions(n, excl, k)[b],
    decreases n - k,
{
    let out = kept_positions(n, excl, k);
    if k >= n {
        assert(forall|x: int| !out.contains(x));
    } else {
        lemma_kept_positions_props(n, excl, k + 1);
        let rest = kept_positions(n, excl, k + 1);
        if excl.contains(k) {
        } else {
            assert forall|x: int| #[trigger] out.contains(x) implies (k <= x < n
                && !excl.contains(x)) by {
                let t = choose|t: int| 0 <= t < out.len() && out[t] == x;
                if t == 0 {
                    assert(x == k);
                } else {
                    assert(rest[t - 1] == x);
                    assert(rest.contains(x));
                }
            }
            assert forall|x: int| (k <= x < n && !excl.contains(x)) implies #[trigger] out
                .contains(x) by {
                if x == k {
                    assert(out[0] == k);
                } else {
                    assert(rest.contains(x));
                    let t = choose|t: int| 0 <= t < rest.len() && rest[t] == x;
                    assert(out[t + 1] == x);
                }
            }
            assert forall|a: int, b: int|
                0 <= a < b < out.len() implies #[trigger] out[a] < #[trigger] out[b] by {
                if a == 0 {
                    assert(out[b] == rest[b - 1]);
                    assert(rest.contains(rest[b - 1]));
                } else {
                    assert(out[a] == rest[a - 1]);
                    assert(out[b] == rest[b - 1]);
                }
            }
        }
    }
}

/// Complement selection, step by step, is the projection of the ascending
/// list of non-excluded positions.
proof fn lemma_keep_rest_as_projection(fields: Seq<Seq<char>>, excl: Seq<int>, k: int)
    ensures
        keep_rest(fields, excl, k) == spec_project(
            fields,
            kept_positions(fields.len() as int, excl, k),
        ),
    decreases fields.len() - k,
{
    let n = fields.len() as int;
    if k < 0 || k >= n {
    } else {
        lemma_keep_rest_as_projection(fields, excl, k + 1);
        if !excl.contains(k) {
            let kept = kept_positions(n, excl, k);
            let rest = kept_positions(n, excl, k + 1);
            assert(kept[0] == k);
            assert(kept.drop_first() =~= rest);
            assert(spec_project(fields, kept) == seq![fields[k]] + spec_project(fields, rest));
        }
    }
}

/// Complement selection removes exactly the resolved positions and keeps
/// every other field, in the field list's original order: it equals the
/// direct projection of the ascending list of the non-resolved positions.
pub proof fn lemma_complement_is_ordered_removal(fields: Seq<Seq<char>>, cols: Seq<i64>)
    requires
        cols.len() > 0,
    ensures
        spec_select(fields, cols, true) == spec_project(
            fields,
            kept_positions(
                fields.len() as int,
                spec_normalize(cols, fields.len() as int),
                0,
            ),
        ),
{
    lemma_keep_rest_as_projection(fields, spec_normalize(cols, fields.len() as int), 0);
}

/// Select the fields named by `cols` (or all but them, in complement mode)
/// from the given field list.
pub fn select_columns(all_splits: &Vec<String>, cols: &Vec<i64>, complement: bool) -> (r: Vec<
    String,
>)
    ensures
        r.deep_view() == spec_select(all_splits.deep_view(), cols@, complement),
{
    let ghost fields = all_splits.deep_view();
    let n = all_splits.len();
    if cols.len() == 0 {
        if complement {
            let out: Vec<String> = Vec::new();
            assert(out.deep_view() =~= spec_select(fields, cols@, complement));
            return out;
        }
        let mut out: Vec<String> = Vec::new();
        let mut k: usize = 0;
        while k < n
            invariant
                n == all_splits.len(),
                0 <= k <= n,
                out.deep_view() =~= fields.take(k as int),
                fields == all_splits.deep_view(),
            decreases n - k,
        {
            let ghost old_deep = out.deep_view();
            out.push(all_splits[k].clone());
            proof {
                assert(out.deep_view() =~= old_deep + seq![fields[k as int]]);
                assert(out.deep_view() =~= fields.take(k + 1));
            }
            k = k + 1;
        }
        assert(fields.take(n as int) =~= fields);
        return out;
    }
    let ghost norm = spec_normalize(cols@, n as int);
    if complement {
        let mut mask: Vec<bool> = Vec::new();
        let mut t: usize = 0;
        while t < n
            invariant
                0 <= t <= n,
                mask.len() == t,
                forall|x: int| 0 <= x < t ==> !mask@[x],
            decreases n - t,
        {
            mask.push(false);
            t = t + 1;
        }
        let mut k: usize = 0;
        proof {
            assert(cols@.take(0) =~= Seq::<i64>::empty());
        }
        while k < cols.len()
            invariant
                n == all_splits.len(),
                mask.len() == n,
                0 <= k <= cols.len(),
                forall|x: int|
                    0 <= x < n ==> mask@[x] == spec_normalize(cols@.take(k as int), n as int)
                        .contains(x),
            decreases cols.len() - k,
        {
            let ghost prev = spec_normalize(cols@.take(k as int), n as int);
            let c = cols[k];
            let v: i128 = c as i128;
            let z: i128 = if v > 0 {
                v - 1
            } else {
                (n as i128) + v
            };
            proof {
                assert(cols@.take(k + 1) =~= cols@.take(k as int).push(c));
                lemma_normalize_push(cols@.take(k as int), c, n as int);
            }
            if 0 <= z && z < n as i128 {
                let j = z as usize;
                assert(j as int == norm_one(c, n as int));
                mask.set(j, true);
                proof {
                    let one = seq![norm_one(c, n as int)];
                    assert(spec_normalize(cols@.take(k + 1), n as int) == prev + one);
                    assert forall|x: int| 0 <= x < n implies mask@[x] == spec_normalize(
                        cols@.take(k + 1),
                        n as int,
                    ).contains(x) by {
                        lemma_contains_add(prev, one, x);
                        if x == j as int {
                            assert(one[0] == x);
                            assert(one.contains(x));
                        } else {
                            assert(forall|t: int| 0 <= t < one.len() ==> one[t] != x);
                            assert(!one.contains(x));
                        }
                    }
                }
            } else {
                proof {
                    assert(spec_normalize(cols@.take(k + 1), n as int) =~= prev);
                }
            }
            k = k + 1;
        }
        proof {
            assert(cols@.take(cols.len() as int) =~= cols@);
        }
        let mut out: Vec<String> = Vec::new();
        let mut t: usize = 0;
        while t < n
            invariant
                n == all_splits.len(),
                mask.len() == n,
                0 <= t <= n,
                forall|x: int| 0 <= x < n ==> mask@[x] == norm.contains(x),
                norm == spec_normalize(cols@, n as int),
                fields == all_splits.deep_view(),
                keep_rest(fields, norm, 0) == out.deep_view() + keep_rest(fields, norm, t as int),
            decreases n - t,
        {
            if !mask[t] {
                let ghost old_deep = out.deep_view();
                out.push(all_splits[t].clone());
                proof {
                    assert(out.deep_view() =~= old_deep + seq![fields[t as int]]);
                    assert(out.deep_view() + keep_rest(fields, norm, t + 1) =~= old_deep
                        + keep_rest(fields, norm, t as int));
                }
            }
            t = t + 1;
        }
        assert(keep_rest(fields, norm, n as int) =~= Seq::<Seq<char>>::empty());
        assert(out.deep_view() =~= keep_rest(fields, norm, 0));
        out
    } else {
        let mut out: Vec<String> = Vec::new();
        let mut k: usize = 0;
        proof {
            lemma_normalize_in_range(cols@, n as int);
            assert(cols@.skip(0) =~= cols@);
        }
        while k < cols.len()
            invariant
                n == all_splits.len(),
                0 <= k <= cols.len(),
                norm == spec_normalize(cols@, n as int),
                fields == all_splits.deep_view(),
                spec_project(fields, norm) == out.deep_view() + spec_project(
                    fields,
                    spec_normalize(cols@.skip(k as int), n as int),
                ),
            decreases cols.len() - k,
        {
            let ghost tail = cols@.skip(k as int);
            let c = cols[k];
            proof {
                assert(tail[0] == c);
                assert(tail.drop_first() =~= cols@.skip(k + 1));
            }
            let v: i128 = c as i128;
            let z: i128 = if v > 0 {
                v - 1
            } else {
                (n as i128) + v
            };
            if 0 <= z && z < n as i128 {
                let j = z as usize;
                assert(j as int == norm_one(c, n as int));
                let ghost old_deep = out.deep_view();
                out.push(all_splits[j].clone());
                proof {
                    let nt = spec_normalize(tail, n as int);
                    assert(nt == seq![j as int] + spec_normalize(cols@.skip(k + 1), n as int));
                    assert(nt[0] == j as int);
                    assert(nt.drop_first() =~= spec_normalize(cols@.skip(k + 1), n as int));
                    assert(spec_project(fields, spec_normalize(tail, n as int)) == seq![
                        fields[j as int],
                    ] + spec_project(fields, spec_normalize(cols@.skip(k + 1), n as int)));
                    assert(out.deep_view() =~= old_deep + seq![fields[j as int]]);
                    assert(out.deep_view() + spec_project(
                        fields,
                        spec_normalize(cols@.skip(k + 1), n as int),
                    ) =~= old_deep + spec_project(fields, spec_normalize(tail, n as int)));
                }
            } else {
                proof {
                    assert(spec_normalize(tail, n as int) =~= spec_normalize(
                        cols@.skip(k + 1),
                        n as int,
                    ));
                }
            }
            k = k + 1;
        }
        proof {
            assert(cols@.skip(cols.len() as int) =~= Seq::<i64>::empty());
            assert(out.deep_view() =~= spec_project(fields, norm));
        }
        out
    }
}

} // verus!
