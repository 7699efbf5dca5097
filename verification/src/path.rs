use vstd::prelude::*;
use vstd::string::StrSliceExecFns;

verus! {

// ---------------------------------------------------------------------------
// Backslash-delimited key paths.
// ---------------------------------------------------------------------------

/// Index of the first separator, or the length when there is none.
pub open spec fn first_sep(p: Seq<char>) -> int
    decreases p.len(),
{
    if p.len() == 0 {
        0
    } else if p[0] == '\\' {
        0
    } else {
        1 + first_sep(p.skip(1))
    }
}

pub proof fn lemma_first_sep(p: Seq<char>)
    ensures
        0 <= first_sep(p) <= p.len(),
        forall|j: int| 0 <= j < first_sep(p) ==> p[j] != '\\',
        first_sep(p) < p.len() ==> p[first_sep(p)] == '\\',
    decreases p.len(),
{
    if p.len() > 0 && p[0] != '\\' {
        lemma_first_sep(p.skip(1));
        assert(forall|j: int| 1 <= j < first_sep(p) ==> p[j] == p.skip(1)[j - 1]);
    }
}

pub proof fn lemma_first_sep_is(p: Seq<char>, k: int)
    requires
        0 <= k <= p.len(),
        forall|j: int| 0 <= j < k ==> p[j] != '\\',
        k < p.len() ==> p[k] == '\\',
    ensures
        first_sep(p) == k,
    decreases p.len(),
{
    if p.len() == 0 {
    } else if p[0] == '\\' {
        assert(k == 0);
    } else {
        assert(k >= 1);
        assert(forall|j: int| 0 <= j < k - 1 ==> p.skip(1)[j] == p[j + 1]);
        assert(k - 1 < p.skip(1).len() ==> p.skip(1)[k - 1] == p[k]);
        lemma_first_sep_is(p.skip(1), k - 1);
    }
}

/// The segments of a path: split at each separator. The final segment is
/// always present, so an empty path reads as one empty segment.
pub open spec fn path_segs(p: Seq<char>) -> Seq<Seq<char>>
    decreases p.len(),
    via path_segs_dec
{
    let k = first_sep(p);
    if k >= p.len() {
        seq![p]
    } else {
        seq![p.take(k)] + path_segs(p.skip(k + 1))
    }
}

#[via_fn]
proof fn path_segs_dec(p: Seq<char>) {
    lemma_first_sep(p);
}

pub proof fn lemma_path_segs_len(p: Seq<char>)
    ensures
        path_segs(p).len() >= 1,
{
    lemma_first_sep(p);
}

/// A path without a separator is one segment: the structural mark of a root.
pub proof fn lemma_path_segs_sepfree(p: Seq<char>)
    requires
        forall|i: int| 0 <= i < p.len() ==> p[i] != '\\',
    ensures
        path_segs(p) == seq![p],
{
    lemma_first_sep_is(p, p.len() as int);
}

/// No segment of a split path holds a separator.
pub proof fn lemma_path_segs_no_sep(p: Seq<char>)
    ensures
        forall|si: int, ci: int|
            #![trigger path_segs(p)[si][ci]]
            0 <= si < path_segs(p).len() && 0 <= ci < path_segs(p)[si].len() ==> path_segs(
                p,
            )[si][ci] != '\\',
    decreases p.len(),
{
    lemma_first_sep(p);
    let k = first_sep(p);
    if k >= p.len() {
    } else {
        lemma_path_segs_no_sep(p.skip(k + 1));
        assert(forall|ci: int| 0 <= ci < k ==> p.take(k)[ci] != '\\');
        assert(forall|si: int|
            1 <= si < path_segs(p).len() ==> (#[trigger] path_segs(p)[si]) == path_segs(
                p.skip(k + 1),
            )[si - 1]);
    }
}

/// Splits a path into its segments.
pub fn split_path(s: &str) -> (r: Vec<String>)
    ensures
        r.deep_view() == path_segs(s@),
{
    let n: usize = s.unicode_len();
    let mut out: Vec<String> = Vec::new();
    let mut i: usize = 0;
    let mut done: bool = false;
    proof {
        assert(s@.skip(0) =~= s@);
        assert(out.deep_view() + path_segs(s@) =~= path_segs(s@));
    }
    while !done
        invariant
            n == s@.len(),
            i <= n,
            !done ==> path_segs(s@) == out.deep_view() + path_segs(s@.skip(i as int)),
            done ==> path_segs(s@) == out.deep_view(),
        decreases n - i, if done {
            0int
        } else {
            1int
        },
    {
        let ghost rest = s@.skip(i as int);
        let mut j: usize = i;
        while j < n && s.get_char(j) != '\\'
            invariant
                n == s@.len(),
                i <= j <= n,
                forall|t: int| i <= t < j ==> s@[t] != '\\',
            decreases n - j,
        {
            j += 1;
        }
        proof {
            assert(forall|t: int| 0 <= t < j - i ==> rest[t] == s@[i + t]);
            lemma_first_sep_is(rest, j - i);
        }
        let seg = s.substring_char(i, j).to_owned();
        let ghost out0 = out.deep_view();
        out.push(seg);
        proof {
            assert(out.deep_view() =~= out0.push(seg@));
            assert(seg@ =~= rest.take(j - i));
        }
        if j < n {
            proof {
                assert(path_segs(rest) == seq![rest.take(j - i)] + path_segs(rest.skip(j - i + 1)));
                assert(rest.skip(j - i + 1) =~= s@.skip(j + 1));
                assert(out0 + (seq![seg@] + path_segs(s@.skip(j + 1))) =~= out.deep_view()
                    + path_segs(s@.skip(j + 1)));
            }
            i = j + 1;
        } else {
            proof {
                assert(rest.take(j - i) =~= rest);
                assert(path_segs(rest) == seq![rest]);
                assert(out0 + seq![rest] =~= out.deep_view());
            }
            i = j;
            done = true;
        }
    }
    out
}

// ---------------------------------------------------------------------------
// The last separator, for parent paths.
// ---------------------------------------------------------------------------

/// Index of the last separator, or -1 when there is none.
pub open spec fn last_sep(p: Seq<char>) -> int
    decreases p.len(),
{
    if p.len() == 0 {
        -1
    } else if p[p.len() - 1] == '\\' {
        p.len() - 1
    } else {
        last_sep(p.drop_last())
    }
}

pub proof fn lemma_last_sep(p: Seq<char>)
    ensures
        -1 <= last_sep(p) < p.len(),
        last_sep(p) >= 0 ==> p[last_sep(p)] == '\\',
        forall|j: int| last_sep(p) < j < p.len() ==> p[j] != '\\',
    decreases p.len(),
{
    if p.len() > 0 && p[p.len() - 1] != '\\' {
        lemma_last_sep(p.drop_last());
        assert(forall|j: int| 0 <= j < p.len() - 1 ==> p.drop_last()[j] == p[j]);
    }
}

pub proof fn lemma_last_sep_is(p: Seq<char>, k: int)
    requires
        -1 <= k < p.len(),
        k >= 0 ==> p[k] == '\\',
        forall|j: int| k < j < p.len() ==> p[j] != '\\',
    ensures
        last_sep(p) == k,
    decreases p.len(),
{
    if p.len() == 0 {
    } else if p[p.len() - 1] == '\\' {
        assert(k == p.len() - 1);
    } else {
        assert(k < p.len() - 1);
        assert(forall|j: int| 0 <= j < p.len() - 1 ==> p.drop_last()[j] == p[j]);
        lemma_last_sep_is(p.drop_last(), k);
    }
}

/// Finds the last separator of a path, if any.
pub fn find_last_sep(s: &str) -> (r: Option<usize>)
    ensures
        match r {
            Some(i) => last_sep(s@) == i as int,
            None => last_sep(s@) == -1,
        },
{
    let n: usize = s.unicode_len();
    let mut i: usize = n;
    while i > 0
        invariant
            n == s@.len(),
            i <= n,
            forall|j: int| i <= j < n ==> s@[j] != '\\',
        decreases i,
    {
        if s.get_char(i - 1) == '\\' {
            proof {
                lemma_last_sep_is(s@, i - 1);
            }
            return Some(i - 1);
        }
        i -= 1;
    }
    proof {
        lemma_last_sep_is(s@, -1);
    }
    None
}

} // verus!
