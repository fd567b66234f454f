//! Joining the selected fields into one output line with a separator.

use vstd::prelude::*;

verus! {

/// The fields concatenated with `sep` between consecutive fields.
pub open spec fn spec_join(fs: Seq<Seq<char>>, sep: Seq<char>) -> Seq<char>
    decreases fs.len(),
{
    if fs.len() == 0 {
        Seq::<char>::empty()
    } else if fs.len() == 1 {
        fs[0]
    } else {
        spec_join(fs.drop_last(), sep) + sep + fs.last()
    }
}

/// Join the fields with the separator, in order.
pub fn join_fields(fields: &Vec<String>, sep: &str) -> (r: String)
    ensures
        r@ == spec_join(fields.deep_view(), sep@),
{
    let ghost fs = fields.deep_view();
    let mut out = String::new();
    let mut k: usize = 0;
    while k < fields.len()
        invariant
            0 <= k <= fields.len(),
            fs == fields.deep_view(),
            out@ == spec_join(fs.take(k as int), sep@),
        decreases fields.len() - k,
    {
        if k > 0 {
            out.append(sep);
        }
        out.append(fields[k].as_str());
        proof {
            let pre = fs.take(k + 1);
            assert(pre.drop_last() =~= fs.take(k as int));
            assert(pre.last() == fs[k as int]);
            if k == 0 {
                assert(spec_join(pre, sep@) == fs[0]);
                assert(fields@[0]@ == fs[0]);
            } else {
                assert(spec_join(pre, sep@) == spec_join(fs.take(k as int), sep@) + sep@
                    + fs[k as int]);
            }
        }
        k = k + 1;
    }
    proof {
        assert(fs.take(fields.len() as int) =~= fs);
    }
    out
}

} // verus!
