//! Splitting one line into an ordered sequence of fields, either on every
//! non-overlapping occurrence of a literal delimiter substring or on runs of
//! whitespace, with a policy for keeping or dropping empty fields.

use vstd::prelude::*;

verus! {

/// Whether a character counts as whitespace for whitespace-mode splitting.
pub uninterp spec fn spec_is_space(c: char) -> bool;

/// Relies on char::is_whitespace: whether `c` has the Unicode `White_Space`
/// property, a function of the character alone.
#[verifier::external_body]
fn is_space(c: char) -> (r: bool)
    ensures
        r == spec_is_space(c),
{
    c.is_whitespace()
}

/// Fields of `s` split on every non-overlapping occurrence of the non-empty
/// delimiter `d`, scanning left to right; empty fields are kept.
pub open spec fn lit_split(s: Seq<char>, d: Seq<char>) -> Seq<Seq<char>>
    recommends
        d.len() > 0,
    decreases s.len(),
{
    if d.len() > 0 && s.len() >= d.len() && s.subrange(0, d.len() as int) == d {
        seq![Seq::<char>::empty()] + lit_split(s.skip(d.len() as int), d)
    } else if s.len() == 0 {
        seq![s]
    } else {
        let rest = lit_split(s.drop_first(), d);
        seq![seq![s[0]] + rest[0]] + rest.drop_first()
    }
}

/// Fields of `s` split on runs of whitespace: runs are collapsed and no
/// empty fields (and no leading or trailing fields) are produced.
pub open spec fn ws_split(s: Seq<char>) -> Seq<Seq<char>>
    decreases s.len(),
{
    if s.len() == 0 {
        Seq::<Seq<char>>::empty()
    } else if spec_is_space(s[0]) {
        ws_split(s.drop_first())
    } else {
        let rest = ws_split(s.drop_first());
        if s.len() > 1 && !spec_is_space(s[1]) {
            seq![seq![s[0]] + rest[0]] + rest.drop_first()
        } else {
            seq![seq![s[0]]] + rest
        }
    }
}

/// The raw field sequence before the empty-field policy is applied.
/// An empty delimiter matches at every character boundary, so it brackets
/// every character with empty fields, as substring splitting does.
pub open spec fn raw_fields(s: Seq<char>, delim: Option<Seq<char>>) -> Seq<Seq<char>> {
    match delim {
        Option::Some(d) => if d.len() == 0 {
            seq![Seq::<char>::empty()] + Seq::new(s.len(), |i: int| seq![s[i]])
                + seq![Seq::<char>::empty()]
        } else {
            lit_split(s, d)
        },
        Option::None => ws_split(s),
    }
}

/// All empty fields removed; the relative order of the rest is kept.
pub open spec fn drop_empty(fs: Seq<Seq<char>>) -> Seq<Seq<char>>
    decreases fs.len(),
{
    if fs.len() == 0 {
        Seq::<Seq<char>>::empty()
    } else if fs[0].len() == 0 {
        drop_empty(fs.drop_first())
    } else {
        seq![fs[0]] + drop_empty(fs.drop_first())
    }
}

/// The field sequence a line yields under the given delimiter mode and
/// empty-field policy.
pub open spec fn spec_split(s: Seq<char>, delim: Option<Seq<char>>, keep_empty: bool) -> Seq<
    Seq<char>,
> {
    if keep_empty {
        raw_fields(s, delim)
    } else {
        drop_empty(raw_fields(s, delim))
    }
}

/// Whitespace splitting of a string that starts with a non-space character
/// yields at least one field, and the first field is non-empty.
proof fn lemma_ws_split_head(s: Seq<char>)
    requires
        s.len() > 0,
        !spec_is_space(s[0]),
    ensures
        ws_split(s).len() >= 1,
        ws_split(s)[0].len() >= 1,
    decreases s.len(),
{
    if s.len() > 1 && !spec_is_space(s[1]) {
        lemma_ws_split_head(s.drop_first());
    }
}

/// If `d` does not occur anywhere in `s` from position `i` on, the split of
/// the suffix is that whole suffix as a single field.
proof fn lemma_lit_split_tail(s: Seq<char>, d: Seq<char>, i: int)
    requires
        d.len() > 0,
        0 <= i <= s.len(),
        forall|p: int|
            i <= p && p + d.len() <= s.len() ==> #[trigger] s.subrange(p, p + d.len() as int)
                != d,
    ensures
        lit_split(s.skip(i), d) == seq![s.skip(i)],
    decreases s.len() - i,
{
    let t = s.skip(i);
    if t.len() >= d.len() {
        assert(t.subrange(0, d.len() as int) =~= s.subrange(i, i + d.len() as int));
        assert(t.subrange(0, d.len() as int) != d);
    }
    if t.len() == 0 {
    } else {
        lemma_lit_split_tail(s, d, i + 1);
        assert(t.drop_first() =~= s.skip(i + 1));
        let rest = lit_split(t.drop_first(), d);
        assert(rest == seq![s.skip(i + 1)]);
        assert(seq![t[0]] + rest[0] =~= s.skip(i));
        assert(lit_split(t, d) =~= seq![s.skip(i)]);
    }
}

/// If the first occurrence of `d` at or after `i` is at `j`, the split of the
/// suffix from `i` starts with the field `s[i..j]` and continues after the
/// delimiter.
proof fn lemma_lit_split_match(s: Seq<char>, d: Seq<char>, i: int, j: int)
    requires
        d.len() > 0,
        0 <= i <= j,
        j + d.len() <= s.len(),
        s.subrange(j, j + d.len() as int) == d,
        forall|p: int| i <= p < j ==> #[trigger] s.subrange(p, p + d.len() as int) != d,
    ensures
        lit_split(s.skip(i), d) == seq![s.subrange(i, j)] + lit_split(
            s.skip(j + d.len() as int),
            d,
        ),
    decreases j - i,
{
    let t = s.skip(i);
    if i == j {
        assert(t.subrange(0, d.len() as int) =~= s.subrange(i, i + d.len() as int));
        assert(t.skip(d.len() as int) =~= s.skip(j + d.len() as int));
        assert(s.subrange(i, j) =~= Seq::<char>::empty());
        assert(lit_split(t, d) =~= seq![s.subrange(i, j)] + lit_split(
            s.skip(j + d.len() as int),
            d,
        ));
    } else {
        if t.len() >= d.len() {
            assert(t.subrange(0, d.len() as int) =~= s.subrange(i, i + d.len() as int));
            assert(t.subrange(0, d.len() as int) != d);
        }
        lemma_lit_split_match(s, d, i + 1, j);
        assert(t.drop_first() =~= s.skip(i + 1));
        let rest = lit_split(t.drop_first(), d);
        let after = lit_split(s.skip(j + d.len() as int), d);
        assert(rest == seq![s.subrange(i + 1, j)] + after);
        assert(rest[0] == s.subrange(i + 1, j));
        assert(seq![t[0]] + rest[0] =~= s.subrange(i, j));
        assert(rest.drop_first() =~= after);
        assert(lit_split(t, d) =~= seq![s.subrange(i, j)] + after);
    }
}

/// Skipping one whitespace character does not change the whitespace split.
proof fn lemma_ws_skip_space(s: Seq<char>, i: int)
    requires
        0 <= i < s.len(),
        spec_is_space(s[i]),
    ensures
        ws_split(s.skip(i)) == ws_split(s.skip(i + 1)),
{
    let t = s.skip(i);
    assert(t.drop_first() =~= s.skip(i + 1));
}

/// A maximal run of non-space characters `s[i..j]` is the next field of the
/// whitespace split of the suffix from `i`.
proof fn lemma_ws_word(s: Seq<char>, i: int, j: int)
    requires
        0 <= i < j <= s.len(),
        forall|p: int| i <= p < j ==> !spec_is_space(s[p]),
        j == s.len() || spec_is_space(s[j]),
    ensures
        ws_split(s.skip(i)) == seq![s.subrange(i, j)] + ws_split(s.skip(j)),
    decreases j - i,
{
    let t = s.skip(i);
    assert(!spec_is_space(t[0]));
    assert(t.drop_first() =~= s.skip(i + 1));
    if i + 1 == j {
        if t.len() > 1 {
            assert(t[1] == s[i + 1]);
        }
        assert(s.subrange(i, j) =~= seq![s[i]]);
        assert(ws_split(t) =~= seq![s.subrange(i, j)] + ws_split(s.skip(j)));
    } else {
        assert(t.len() > 1 && !spec_is_space(t[1]));
        lemma_ws_word(s, i + 1, j);
        let rest = ws_split(t.drop_first());
        let after = ws_split(s.skip(j));
        assert(rest == seq![s.subrange(i + 1, j)] + after);
        assert(rest[0] == s.subrange(i + 1, j));
        assert(seq![t[0]] + rest[0] =~= s.subrange(i, j));
        assert(rest.drop_first() =~= after);
        assert(ws_split(t) =~= seq![s.subrange(i, j)] + after);
    }
}

/// Whitespace-mode splitting never yields an empty field.
pub proof fn lemma_ws_split_no_empty(s: Seq<char>)
    ensures
        forall|t: int| 0 <= t < ws_split(s).len() ==> #[trigger] ws_split(s)[t].len() > 0,
    decreases s.len(),
{
    if s.len() == 0 {
    } else if spec_is_space(s[0]) {
        lemma_ws_split_no_empty(s.drop_first());
    } else {
        lemma_ws_split_no_empty(s.drop_first());
        let rest = ws_split(s.drop_first());
        let out = ws_split(s);
        if s.len() > 1 && !spec_is_space(s[1]) {
            lemma_ws_split_head(s.drop_first());
            assert forall|t: int| 0 <= t < out.len() implies #[trigger] out[t].len() > 0 by {
                if t == 0 {
                    assert(out[0] == seq![s[0]] + rest[0]);
                } else {
                    assert(out[t] == rest[t]);
                }
            }
        } else {
            assert forall|t: int| 0 <= t < out.len() implies #[trigger] out[t].len() > 0 by {
                if t == 0 {
                    assert(out[0] == seq![s[0]]);
                } else {
                    assert(out[t] == rest[t - 1]);
                }
            }
        }
    }
}

/// Removing empty fields from a list that has none leaves it unchanged.
proof fn lemma_drop_empty_id(fs: Seq<Seq<char>>)
    requires
        forall|t: int| 0 <= t < fs.len() ==> #[trigger] fs[t].len() > 0,
    ensures
        drop_empty(fs) == fs,
    decreases fs.len(),
{
    if fs.len() > 0 {
        assert(fs[0].len() > 0);
        lemma_drop_empty_id(fs.drop_first());
        assert(seq![fs[0]] + fs.drop_first() =~= fs);
    }
}

/// The empty-field policy has no observable effect in whitespace mode:
/// whitespace splitting produces no empty fields to keep or to drop.
pub proof fn lemma_whitespace_ignores_keep_empty(s: Seq<char>, k1: bool, k2: bool)
    ensures
        spec_split(s, Option::None, k1) == spec_split(s, Option::None, k2),
{
    lemma_ws_split_no_empty(s);
    lemma_drop_empty_id(ws_split(s));
}

/// Dropped empty fields leave no empty field behind.
proof fn lemma_drop_empty_no_empty(fs: Seq<Seq<char>>)
    ensures
        forall|t: int|
            0 <= t < drop_empty(fs).len() ==> #[trigger] drop_empty(fs)[t].len() > 0,
    decreases fs.len(),
{
    if fs.len() > 0 {
        lemma_drop_empty_no_empty(fs.drop_first());
        if fs[0].len() > 0 {
            let out = drop_empty(fs);
            let rest = drop_empty(fs.drop_first());
            assert forall|t: int| 0 <= t < out.len() implies #[trigger] out[t].len() > 0 by {
                if t > 0 {
                    assert(out[t] == rest[t - 1]);
                }
            }
        }
    }
}

/// Delimiter-mode splitting with the empty-field policy off strips exactly
/// the empty fields: the result is the kept-empty split with its empty
/// fields removed, the relative order of the rest is unchanged, and no
/// empty field remains.
pub proof fn lemma_strip_empty_fields(s: Seq<char>, d: Seq<char>)
    ensures
        spec_split(s, Option::Some(d), false) == drop_empty(spec_split(s, Option::Some(d), true)),
        forall|t: int|
            0 <= t < spec_split(s, Option::Some(d), false).len() ==> #[trigger] spec_split(
                s,
                Option::Some(d),
                false,
            )[t].len() > 0,
{
    lemma_drop_empty_no_empty(raw_fields(s, Option::Some(d)));
}

/// Whether the delimiter `d` occurs in `line` starting at character `i`.
fn matches_at(line: &str, d: &str, i: usize, n: usize, dl: usize) -> (r: bool)
    requires
        n == line@.len(),
        dl == d@.len(),
        i + dl <= n,
    ensures
        r == (line@.subrange(i as int, i + d@.len()) == d@),
{
    let mut k: usize = 0;
    while k < dl
        invariant
            n == line@.len(),
            dl == d@.len(),
            i + dl <= n,
            0 <= k <= dl,
            forall|p: int| 0 <= p < k ==> line@[i + p] == d@[p],
        decreases dl - k,
    {
        if line.get_char(i + k) != d.get_char(k) {
            assert(line@.subrange(i as int, i + d@.len())[k as int] != d@[k as int]);
            return false;
        }
        k = k + 1;
    }
    assert(line@.subrange(i as int, i + d@.len()) =~= d@);
    true
}

/// Split `line` on every non-overlapping occurrence of the literal
/// delimiter `d`, keeping empty fields.
fn split_literal(line: &str, d: &str) -> (r: Vec<String>)
    ensures
        r.deep_view() == raw_fields(line@, Option::Some(d@)),
{
    let n = line.unicode_len();
    let dl = d.unicode_len();
    let mut out: Vec<String> = Vec::new();
    if dl == 0 {
        out.push(String::new());
        let mut i: usize = 0;
        while i < n
            invariant
                n == line@.len(),
                0 <= i <= n,
                out.deep_view() =~= seq![Seq::<char>::empty()] + Seq::new(
                    i as nat,
                    |t: int| seq![line@[t]],
                ),
            decreases n - i,
        {
            let c = line.substring_char(i, i + 1).to_owned();
            assert(c@ =~= seq![line@[i as int]]);
            let ghost old_deep = out.deep_view();
            out.push(c);
            proof {
                assert(out.deep_view() =~= old_deep + seq![seq![line@[i as int]]]);
                assert(out.deep_view() =~= seq![Seq::<char>::empty()] + Seq::new(
                    (i + 1) as nat,
                    |t: int| seq![line@[t]],
                ));
            }
            i = i + 1;
        }
        out.push(String::new());
        assert(out.deep_view() =~= raw_fields(line@, Option::Some(d@)));
        return out;
    }
    let mut i: usize = 0;
    let mut j: usize = 0;
    proof {
        assert(line@.skip(0) =~= line@);
    }
    while dl <= n - j
        invariant
            n == line@.len(),
            dl == d@.len(),
            dl > 0,
            0 <= i <= j <= n,
            lit_split(line@, d@) == out.deep_view() + lit_split(line@.skip(i as int), d@),
            forall|p: int|
                i <= p < j ==> #[trigger] line@.subrange(p, p + d@.len() as int) != d@,
        decreases n - j,
    {
        if matches_at(line, d, j, n, dl) {
            let field = line.substring_char(i, j).to_owned();
            proof {
                lemma_lit_split_match(line@, d@, i as int, j as int);
            }
            let ghost old_deep = out.deep_view();
            out.push(field);
            proof {
                assert(out.deep_view() =~= old_deep + seq![line@.subrange(i as int, j as int)]);
                assert(out.deep_view() + lit_split(line@.skip(j + dl), d@) =~= old_deep
                    + lit_split(line@.skip(i as int), d@));
            }
            i = j + dl;
            j = i;
        } else {
            j = j + 1;
        }
    }
    let field = line.substring_char(i, n).to_owned();
    proof {
        lemma_lit_split_tail(line@, d@, i as int);
        assert(line@.subrange(i as int, n as int) =~= line@.skip(i as int));
    }
    let ghost old_deep = out.deep_view();
    out.push(field);
    proof {
        assert(out.deep_view() =~= old_deep + seq![line@.skip(i as int)]);
        assert(out.deep_view() =~= lit_split(line@, d@));
    }
    out
}

/// Split `line` on runs of whitespace; no empty fields are produced.
fn split_whitespace_runs(line: &str) -> (r: Vec<String>)
    ensures
        r.deep_view() == ws_split(line@),
{
    let n = line.unicode_len();
    let mut out: Vec<String> = Vec::new();
    let mut i: usize = 0;
    proof {
        assert(line@.skip(0) =~= line@);
    }
    while i < n
        invariant
            n == line@.len(),
            0 <= i <= n,
            ws_split(line@) == out.deep_view() + ws_split(line@.skip(i as int)),
        decreases n - i,
    {
        if is_space(line.get_char(i)) {
            proof {
                lemma_ws_skip_space(line@, i as int);
            }
            i = i + 1;
        } else {
            let mut j: usize = i + 1;
            loop
                invariant
                    n == line@.len(),
                    i < j <= n,
                    forall|p: int| i <= p < j ==> !spec_is_space(line@[p]),
                ensures
                    i < j <= n,
                    forall|p: int| i <= p < j ==> !spec_is_space(line@[p]),
                    j == n || spec_is_space(line@[j as int]),
                decreases n - j,
            {
                if j >= n {
                    break ;
                }
                if is_space(line.get_char(j)) {
                    break ;
                }
                j = j + 1;
            }
            let field = line.substring_char(i, j).to_owned();
            proof {
                lemma_ws_word(line@, i as int, j as int);
            }
            let ghost old_deep = out.deep_view();
            out.push(field);
            proof {
                assert(out.deep_view() =~= old_deep + seq![line@.subrange(i as int, j as int)]);
                assert(out.deep_view() + ws_split(line@.skip(j as int)) =~= old_deep + ws_split(
                    line@.skip(i as int),
                ));
            }
            i = j;
        }
    }
    proof {
        assert(line@.skip(n as int) =~= Seq::<char>::empty());
        assert(ws_split(line@) =~= out.deep_view());
    }
    out
}

/// Remove the empty fields, keeping the relative order of the rest.
fn remove_empty(v: Vec<String>) -> (r: Vec<String>)
    ensures
        r.deep_view() == drop_empty(v.deep_view()),
{
    let mut out: Vec<String> = Vec::new();
    let mut k: usize = 0;
    proof {
        assert(v.deep_view().skip(0) =~= v.deep_view());
    }
    while k < v.len()
        invariant
            0 <= k <= v.len(),
            drop_empty(v.deep_view()) == out.deep_view() + drop_empty(
                v.deep_view().skip(k as int),
            ),
        decreases v.len() - k,
    {
        let ghost suffix = v.deep_view().skip(k as int);
        proof {
            assert(suffix[0] == v.deep_view()[k as int]);
            assert(suffix.drop_first() =~= v.deep_view().skip(k + 1));
        }
        if !v[k].as_str().is_empty() {
            let ghost old_deep = out.deep_view();
            out.push(v[k].clone());
            proof {
                assert(out.deep_view() =~= old_deep + seq![v.deep_view()[k as int]]);
                assert(out.deep_view() + drop_empty(v.deep_view().skip(k + 1)) =~= old_deep
                    + drop_empty(suffix));
            }
        }
        k = k + 1;
    }
    proof {
        assert(v.deep_view().skip(v.len() as int) =~= Seq::<Seq<char>>::empty());
        assert(out.deep_view() =~= drop_empty(v.deep_view()));
    }
    out
}

/// Split `line` according to the delimiter mode and empty-field policy.
pub fn split_with(line: &str, delim: &Option<String>, keep_empty: bool) -> (r: Vec<String>)
    ensures
        r.deep_view() == spec_split(line@, delim.deep_view(), keep_empty),
{
    let raw: Vec<String> = match delim {
        Option::Some(d) => split_literal(line, d.as_str()),
        Option::None => split_whitespace_runs(line),
    };
    if keep_empty {
        raw
    } else {
        remove_empty(raw)
    }
}

} // verus!
