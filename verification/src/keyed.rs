//! Keyed list reconciliation.
//!
//! A keyed map keeps, per source item, one mapped output and one disposal
//! scope, and on every update diffs the new sequence against the previous
//! one by item value: the common prefix and suffix are kept in place, the
//! remaining middle is matched by value — equal values pair up in stable
//! left-to-right order — and only the leftover positions are mapped fresh.
//! Old positions that were not reused have their scopes disposed.
//!
//! The whole diff policy is the specification [`spec_plan`]: for each new
//! position, either the old index whose output is moved there, or fresh.

use vstd::prelude::*;

use crate::datum::Datum;
use crate::runtime::track_model;
use crate::runtime::CompModel;
use crate::runtime::Runtime;
use crate::runtime::StateHandle;

verus! {

/// Length of the common prefix of `a` and `b`, by value equality.
pub open spec fn pre_len<T: Datum>(a: Seq<T>, b: Seq<T>) -> int
    decreases a.len(),
{
    if a.len() > 0 && b.len() > 0 && a[0].veq(&b[0]) {
        1 + pre_len(a.drop_first(), b.drop_first())
    } else {
        0
    }
}

/// Length of the common suffix of `a` and `b` that lies strictly after a
/// prefix of length `p` on both sides.
pub open spec fn suf_len<T: Datum>(a: Seq<T>, b: Seq<T>, p: int) -> int
    decreases a.len(),
{
    if p >= 0 && a.len() > p && b.len() > p && a[a.len() - 1].veq(&b[b.len() - 1]) {
        1 + suf_len(a.drop_last(), b.drop_last(), p)
    } else {
        0
    }
}

/// The first position of `bmid`, from `j` on, that is still unmatched and
/// holds a value equal to `v`.
pub open spec fn first_free<T: Datum>(bmid: Seq<T>, acc: Seq<Option<usize>>, v: T, j: int) -> Option<
    int,
>
    decreases bmid.len() - j,
{
    if j < 0 || j >= bmid.len() {
        None
    } else if acc[j] is None && v.veq(&bmid[j]) {
        Some(j)
    } else {
        first_free(bmid, acc, v, j + 1)
    }
}

/// Matches the old middle items `amid`, from position `k` on and in order,
/// each against the first unmatched equal value of the new middle `bmid`,
/// starting from the partial match `acc`.
pub open spec fn fill<T: Datum>(
    amid: Seq<T>,
    bmid: Seq<T>,
    acc: Seq<Option<usize>>,
    k: int,
) -> Seq<Option<usize>>
    decreases amid.len() - k,
{
    if k < 0 || k >= amid.len() {
        acc
    } else {
        let acc2 = match first_free(bmid, acc, amid[k], 0) {
            Some(j) => acc.update(j, Some(k as usize)),
            None => acc,
        };
        fill(amid, bmid, acc2, k + 1)
    }
}

/// The reconciliation plan of old sequence `a` against new sequence `b`:
/// entry `i` names the old index whose output moves to new position `i`, or
/// is `None` where position `i` must be mapped fresh.
pub open spec fn spec_plan<T: Datum>(a: Seq<T>, b: Seq<T>) -> Seq<Option<usize>> {
    if b.len() == 0 {
        Seq::empty()
    } else if a.len() == 0 {
        Seq::new(b.len(), |i: int| None)
    } else {
        let p = pre_len(a, b);
        let q = suf_len(a, b, p);
        let amid = a.subrange(p, a.len() - q);
        let bmid = b.subrange(p, b.len() - q);
        let mid = fill(amid, bmid, Seq::new(bmid.len(), |i: int| None), 0);
        Seq::new(
            b.len(),
            |i: int|
                if i < p {
                    Some(i as usize)
                } else if i >= b.len() - q {
                    Some((i - b.len() + a.len()) as usize)
                } else {
                    match mid[i - p] {
                        Some(j) => Some(((j as int) + p) as usize),
                        None => None,
                    }
                },
        )
    }
}

/// Old index `j` is reused somewhere by the plan.
pub open spec fn plan_reuses(plan: Seq<Option<usize>>, j: usize) -> bool {
    exists|i: int| 0 <= i < plan.len() && plan[i] == Some(j)
}

/// The common prefix is a genuine maximal matching prefix.
pub proof fn lemma_pre_len<T: Datum>(a: Seq<T>, b: Seq<T>)
    ensures
        0 <= pre_len(a, b) <= a.len(),
        pre_len(a, b) <= b.len(),
        forall|k: int| 0 <= k < pre_len(a, b) ==> a[k].veq(&b[k]),
        (pre_len(a, b) < a.len() && pre_len(a, b) < b.len()) ==> !a[pre_len(a, b)].veq(
            &b[pre_len(a, b)],
        ),
    decreases a.len(),
{
    if a.len() > 0 && b.len() > 0 && a[0].veq(&b[0]) {
        lemma_pre_len(a.drop_first(), b.drop_first());
        let p = pre_len(a, b);
        assert forall|k: int| 0 <= k < p implies a[k].veq(&b[k]) by {
            if k > 0 {
                assert(a.drop_first()[k - 1].veq(&b.drop_first()[k - 1]));
                assert(a.drop_first()[k - 1] == a[k]);
                assert(b.drop_first()[k - 1] == b[k]);
            }
        }
        if p < a.len() && p < b.len() {
            assert(a.drop_first()[p - 1] == a[p]);
            assert(b.drop_first()[p - 1] == b[p]);
        }
    }
}

/// The common suffix is a genuine maximal matching suffix beyond the prefix.
pub proof fn lemma_suf_len<T: Datum>(a: Seq<T>, b: Seq<T>, p: int)
    requires
        0 <= p <= a.len(),
        p <= b.len(),
    ensures
        0 <= suf_len(a, b, p),
        a.len() - suf_len(a, b, p) >= p,
        b.len() - suf_len(a, b, p) >= p,
        forall|k: int|
            0 <= k < suf_len(a, b, p) ==> (#[trigger] a[a.len() - 1 - k]).veq(&b[b.len() - 1 - k]),
    decreases a.len(),
{
    if p >= 0 && a.len() > p && b.len() > p && a[a.len() - 1].veq(&b[b.len() - 1]) {
        lemma_suf_len(a.drop_last(), b.drop_last(), p);
        let q = suf_len(a, b, p);
        assert forall|k: int| 0 <= k < q implies (#[trigger] a[a.len() - 1 - k]).veq(
            &b[b.len() - 1 - k],
        ) by {
            if k > 0 {
                assert(a.drop_last()[a.len() - 2 - (k - 1)].veq(
                    &b.drop_last()[b.len() - 2 - (k - 1)],
                ));
                assert(a.drop_last()[a.len() - 2 - (k - 1)] == a[a.len() - 1 - k]);
                assert(b.drop_last()[b.len() - 2 - (k - 1)] == b[b.len() - 1 - k]);
            }
        }
    }
}

/// What a successful first-free lookup means.
pub proof fn lemma_first_free<T: Datum>(bmid: Seq<T>, acc: Seq<Option<usize>>, v: T, j: int)
    requires
        0 <= j,
    ensures
        match first_free(bmid, acc, v, j) {
            Some(r) => j <= r < bmid.len() && acc[r] is None && v.veq(&bmid[r]),
            None => forall|t: int| j <= t < bmid.len() ==> !((#[trigger] acc[t]) is None && v.veq(&bmid[t])),
        },
    decreases bmid.len() - j,
{
    if j < bmid.len() {
        if !(acc[j] is None && v.veq(&bmid[j])) {
            lemma_first_free(bmid, acc, v, j + 1);
        }
    }
}

/// Everything the middle matching guarantees: existing matches are kept,
/// every match pairs equal values, no two new positions reuse the same old
/// index.
pub proof fn lemma_fill<T: Datum>(amid: Seq<T>, bmid: Seq<T>, acc: Seq<Option<usize>>, k: int)
    requires
        0 <= k <= amid.len(),
        amid.len() <= usize::MAX as int,
        acc.len() == bmid.len(),
        forall|j: int| 0 <= j < acc.len() && (#[trigger] acc[j]) is Some ==> (acc[j].unwrap() as int)
            < k && amid[acc[j].unwrap() as int].veq(&bmid[j]),
        forall|j1: int, j2: int|
            0 <= j1 < j2 < acc.len() && acc[j1] is Some && acc[j2] is Some ==> acc[j1] != acc[j2],
    ensures
        ({
            let r = fill(amid, bmid, acc, k);
            &&& r.len() == bmid.len()
            &&& forall|j: int| 0 <= j < acc.len() && (#[trigger] acc[j]) is Some ==> r[j] == acc[j]
            &&& forall|j: int|
                0 <= j < r.len() && (#[trigger] r[j]) is Some ==> (r[j].unwrap() as int)
                    < amid.len() && amid[r[j].unwrap() as int].veq(&bmid[j])
            &&& forall|j1: int, j2: int|
                0 <= j1 < j2 < r.len() && r[j1] is Some && r[j2] is Some ==> r[j1] != r[j2]
        }),
    decreases amid.len() - k,
{
    if k < amid.len() {
        lemma_first_free(bmid, acc, amid[k], 0);
        let acc2 = match first_free(bmid, acc, amid[k], 0) {
            Some(j) => acc.update(j, Some(k as usize)),
            None => acc,
        };
        assert(fill(amid, bmid, acc, k) == fill(amid, bmid, acc2, k + 1));
        assert forall|j: int|
            0 <= j < acc.len() && (#[trigger] acc[j]) is Some implies acc2[j] == acc[j] by {
            match first_free(bmid, acc, amid[k], 0) {
                Some(u) => {
                    assert(acc[u] is None);
                    assert(j != u);
                },
                None => {},
            }
        }
        assert forall|j: int|
            0 <= j < acc2.len() && (#[trigger] acc2[j]) is Some implies (acc2[j].unwrap() as int)
            < k + 1 && amid[acc2[j].unwrap() as int].veq(&bmid[j]) by {
            match first_free(bmid, acc, amid[k], 0) {
                Some(u) => {
                    if j == u {
                        assert(acc2[j] == Some(k as usize));
                        assert((k as usize) as int == k);
                        assert(amid[k].veq(&bmid[u]));
                    } else {
                        assert(acc2[j] == acc[j]);
                    }
                },
                None => {},
            }
        }
        assert forall|j1: int, j2: int|
            0 <= j1 < j2 < acc2.len() && acc2[j1] is Some && acc2[j2] is Some implies acc2[j1]
            != acc2[j2] by {
            match first_free(bmid, acc, amid[k], 0) {
                Some(j) => {
                    if j1 != j && j2 != j {
                        assert(acc2[j1] == acc[j1]);
                        assert(acc2[j2] == acc[j2]);
                    } else if j1 == j {
                        assert(acc2[j2] == acc[j2]);
                        assert((acc[j2].unwrap() as int) < k);
                    } else {
                        assert(acc2[j1] == acc[j1]);
                        assert((acc[j1].unwrap() as int) < k);
                    }
                },
                None => {},
            }
        }
        lemma_fill(amid, bmid, acc2, k + 1);
        let r = fill(amid, bmid, acc, k);
        assert forall|j: int|
            0 <= j < acc.len() && (#[trigger] acc[j]) is Some implies r[j] == acc[j] by {
            assert(acc2[j] == acc[j]);
            assert(r[j] == acc2[j]);
        }
    }
}

/// Every planned reuse points at a valid old index holding an equal value,
/// and no old index is reused twice.
pub proof fn lemma_plan_props<T: Datum>(a: Seq<T>, b: Seq<T>)
    requires
        a.len() <= usize::MAX as int,
        b.len() <= usize::MAX as int,
    ensures
        ({
            let plan = spec_plan(a, b);
            &&& plan.len() == b.len()
            &&& forall|i: int|
                0 <= i < plan.len() && (#[trigger] plan[i]) is Some ==> (plan[i].unwrap() as int)
                    < a.len() && a[plan[i].unwrap() as int].veq(&b[i])
            &&& forall|i1: int, i2: int|
                0 <= i1 < i2 < plan.len() && plan[i1] is Some && plan[i2] is Some ==> plan[i1]
                    != plan[i2]
        }),
{
    let plan = spec_plan(a, b);
    if b.len() == 0 {
    } else if a.len() == 0 {
    } else {
        let p = pre_len(a, b);
        let q = suf_len(a, b, p);
        lemma_pre_len(a, b);
        lemma_suf_len(a, b, p);
        let amid = a.subrange(p, a.len() - q);
        let bmid = b.subrange(p, b.len() - q);
        let acc0 = Seq::new(bmid.len(), |i: int| None::<usize>);
        let mid = fill(amid, bmid, acc0, 0);
        lemma_fill(amid, bmid, acc0, 0);
        assert forall|i: int|
            0 <= i < plan.len() && (#[trigger] plan[i]) is Some implies (plan[i].unwrap() as int)
            < a.len() && a[plan[i].unwrap() as int].veq(&b[i]) by {
            if i < p {
                assert(a[i].veq(&b[i]));
            } else if i >= b.len() - q {
                let k = b.len() - 1 - i;
                assert(a[a.len() - 1 - k].veq(&b[b.len() - 1 - k]));
                assert(a.len() - 1 - k == i - b.len() + a.len());
            } else {
                match mid[i - p] {
                    Some(j) => {
                        assert(amid[j as int].veq(&bmid[i - p]));
                        assert(amid[j as int] == a[(j as int) + p]);
                        assert(bmid[i - p] == b[i]);
                    },
                    None => {},
                }
            }
        }
        assert forall|i1: int, i2: int|
            0 <= i1 < i2 < plan.len() && plan[i1] is Some && plan[i2] is Some implies plan[i1]
            != plan[i2] by {
            let r1 = plan[i1].unwrap() as int;
            let r2 = plan[i2].unwrap() as int;
            if i1 < p {
                assert(r1 == i1);
                if i2 < p {
                    assert(r2 == i2);
                } else if i2 >= b.len() - q {
                    assert(r2 == i2 - b.len() + a.len());
                    assert(r2 >= a.len() - q);
                    assert(a.len() - q >= p);
                } else {
                    let j2 = mid[i2 - p].unwrap();
                    assert(r2 == (j2 as int) + p);
                    assert((j2 as int) < amid.len());
                }
            } else if i1 >= b.len() - q {
                assert(r1 == i1 - b.len() + a.len());
                assert(i2 >= b.len() - q);
                assert(r2 == i2 - b.len() + a.len());
            } else {
                let j1 = mid[i1 - p].unwrap();
                assert(r1 == (j1 as int) + p);
                assert((j1 as int) < amid.len());
                if i2 < b.len() - q {
                    let j2 = mid[i2 - p].unwrap();
                    assert(r2 == (j2 as int) + p);
                    assert(mid[i1 - p] != mid[i2 - p]);
                } else {
                    assert(r2 == i2 - b.len() + a.len());
                    assert(r2 >= a.len() - q);
                }
            }
        }
    }
}

/// Re-feeding an equal sequence is a no-op plan: every position keeps its
/// own old index.
pub proof fn lemma_plan_noop<T: Datum>(a: Seq<T>, b: Seq<T>)
    requires
        a.len() == b.len(),
        b.len() <= usize::MAX as int,
        forall|k: int| 0 <= k < a.len() ==> a[k].veq(&b[k]),
    ensures
        forall|i: int| 0 <= i < b.len() ==> spec_plan(a, b)[i] == Some(i as usize),
{
    if b.len() == 0 {
    } else {
        lemma_pre_len(a, b);
        let p = pre_len(a, b);
        assert(p == a.len()) by {
            if p < a.len() {
                assert(!a[p].veq(&b[p]));
            }
        }
        assert(suf_len(a, b, p) == 0);
    }
}

/// `pre_len` is characterized by what the prefix loop establishes.
pub proof fn lemma_pre_len_char<T: Datum>(a: Seq<T>, b: Seq<T>, p: int)
    requires
        0 <= p <= a.len(),
        p <= b.len(),
        forall|k: int| 0 <= k < p ==> a[k].veq(&b[k]),
        (p < a.len() && p < b.len()) ==> !a[p].veq(&b[p]),
    ensures
        pre_len(a, b) == p,
    decreases a.len(),
{
    if p == 0 {
        if a.len() > 0 && b.len() > 0 && a[0].veq(&b[0]) {
            assert(false);
        }
    } else {
        assert(a[0].veq(&b[0]));
        assert forall|k: int| 0 <= k < p - 1 implies (#[trigger] a.drop_first()[k]).veq(
            &b.drop_first()[k],
        ) by {
            assert(a.drop_first()[k] == a[k + 1]);
            assert(b.drop_first()[k] == b[k + 1]);
            assert(a[k + 1].veq(&b[k + 1]));
        }
        if p - 1 < a.len() - 1 && p - 1 < b.len() - 1 {
            assert(a.drop_first()[p - 1] == a[p]);
            assert(b.drop_first()[p - 1] == b[p]);
        }
        lemma_pre_len_char(a.drop_first(), b.drop_first(), p - 1);
    }
}

/// `suf_len` is characterized by what the suffix loop establishes.
pub proof fn lemma_suf_len_char<T: Datum>(a: Seq<T>, b: Seq<T>, p: int, q: int)
    requires
        0 <= p,
        0 <= q,
        p <= a.len() - q,
        p <= b.len() - q,
        forall|k: int|
            0 <= k < q ==> (#[trigger] a[a.len() - 1 - k]).veq(&b[b.len() - 1 - k]),
        (a.len() - q > p && b.len() - q > p) ==> !a[a.len() - 1 - q].veq(&b[b.len() - 1 - q]),
    ensures
        suf_len(a, b, p) == q,
    decreases a.len(),
{
    if q == 0 {
        if a.len() > p && b.len() > p && a[a.len() - 1].veq(&b[b.len() - 1]) {
            assert(false);
        }
    } else {
        assert(a[a.len() - 1 - 0].veq(&b[b.len() - 1 - 0]));
        assert(a.len() > p && b.len() > p);
        let a2 = a.drop_last();
        let b2 = b.drop_last();
        assert forall|k: int| 0 <= k < q - 1 implies (#[trigger] a2[a2.len() - 1 - k]).veq(
            &b2[b2.len() - 1 - k],
        ) by {
            assert(a2[a2.len() - 1 - k] == a[a.len() - 1 - (k + 1)]);
            assert(b2[b2.len() - 1 - k] == b[b.len() - 1 - (k + 1)]);
            assert(a[a.len() - 1 - (k + 1)].veq(&b[b.len() - 1 - (k + 1)]));
        }
        if a2.len() - (q - 1) > p && b2.len() - (q - 1) > p {
            assert(a2[a2.len() - 1 - (q - 1)] == a[a.len() - 1 - q]);
            assert(b2[b2.len() - 1 - (q - 1)] == b[b.len() - 1 - q]);
        }
        lemma_suf_len_char(a2, b2, p, q - 1);
    }
}

/// Computes the reconciliation plan of the previous items `a` against the
/// new items `b`: exactly [`spec_plan`].
fn diff_keyed<T: Datum>(a: &Vec<T>, b: &Vec<T>) -> (plan: Vec<Option<usize>>)
    ensures
        plan@ == spec_plan(a@, b@),
{
    let an: usize = a.len();
    let bn: usize = b.len();
    if bn == 0 {
        let plan: Vec<Option<usize>> = Vec::new();
        proof {
            assert(plan@ =~= spec_plan(a@, b@));
        }
        return plan;
    }
    if an == 0 {
        let mut plan: Vec<Option<usize>> = Vec::new();
        let mut i: usize = 0;
        while i < bn
            invariant
                i <= bn,
                bn == b@.len(),
                plan@.len() == i,
                forall|k: int| 0 <= k < i ==> (#[trigger] plan@[k]) is None,
            decreases bn - i,
        {
            plan.push(None);
            i = i + 1;
        }
        proof {
            assert(plan@ =~= spec_plan(a@, b@));
        }
        return plan;
    }
    // trim the common prefix
    let minlen: usize = if an < bn {
        an
    } else {
        bn
    };
    let mut p: usize = 0;
    while p < minlen && a[p].eq_check(&b[p])
        invariant
            p <= minlen,
            minlen <= an,
            minlen <= bn,
            an == a@.len(),
            bn == b@.len(),
            minlen == an || minlen == bn,
            forall|k: int| 0 <= k < p ==> (#[trigger] a@[k]).veq(&b@[k]),
        decreases minlen - p,
    {
        p = p + 1;
    }
    proof {
        lemma_pre_len_char(a@, b@, p as int);
    }
    // trim the common suffix beyond the prefix
    let mut q: usize = 0;
    while an - q > p && bn - q > p && a[an - 1 - q].eq_check(&b[bn - 1 - q])
        invariant
            0 <= q,
            p <= an - q,
            p <= bn - q,
            an == a@.len(),
            bn == b@.len(),
            forall|k: int|
                0 <= k < q ==> (#[trigger] a@[an - 1 - k]).veq(&b@[bn - 1 - k]),
        decreases an - q,
    {
        q = q + 1;
    }
    proof {
        lemma_suf_len_char(a@, b@, p as int, q as int);
    }
    // match the middle by value, first unmatched occurrence first
    let amid_n: usize = an - q - p;
    let bmid_n: usize = bn - q - p;
    let ghost amid = a@.subrange(p as int, (an - q) as int);
    let ghost bmid = b@.subrange(p as int, (bn - q) as int);
    let ghost acc0 = Seq::new(bmid.len(), |i: int| None::<usize>);
    let mut acc: Vec<Option<usize>> = Vec::new();
    let mut i: usize = 0;
    while i < bmid_n
        invariant
            i <= bmid_n,
            acc@.len() == i,
            forall|k: int| 0 <= k < i ==> (#[trigger] acc@[k]) is None,
        decreases bmid_n - i,
    {
        acc.push(None);
        i = i + 1;
    }
    proof {
        assert(acc@ =~= acc0);
    }
    let mut k: usize = 0;
    while k < amid_n
        invariant
            k <= amid_n,
            an == a@.len(),
            bn == b@.len(),
            p + q <= an,
            p + q <= bn,
            amid_n == an - q - p,
            bmid_n == bn - q - p,
            amid == a@.subrange(p as int, (an - q) as int),
            bmid == b@.subrange(p as int, (bn - q) as int),
            acc0 == Seq::new(bmid.len(), |i: int| None::<usize>),
            acc@.len() == bmid_n,
            fill(amid, bmid, acc@, k as int) == fill(amid, bmid, acc0, 0),
        decreases amid_n - k,
    {
        let ghost acc_pre = acc@;
        let mut j: usize = 0;
        let mut found: Option<usize> = None;
        loop
            invariant_except_break
                found is None,
            invariant
                j <= bmid_n,
                k < amid_n,
                an == a@.len(),
                bn == b@.len(),
                p + q <= an,
                p + q <= bn,
                amid_n == an - q - p,
                bmid_n == bn - q - p,
                amid == a@.subrange(p as int, (an - q) as int),
                bmid == b@.subrange(p as int, (bn - q) as int),
                acc@ == acc_pre,
                acc@.len() == bmid_n,
                found is None ==> first_free(bmid, acc@, amid[k as int], j as int)
                    == first_free(bmid, acc@, amid[k as int], 0),
            ensures
                match found {
                    Some(jj) => first_free(bmid, acc@, amid[k as int], 0) == Some(jj as int),
                    None => first_free(bmid, acc@, amid[k as int], 0) is None,
                },
            decreases bmid_n - j,
        {
            if j >= bmid_n {
                proof {
                    assert(first_free(bmid, acc@, amid[k as int], j as int) is None);
                }
                break;
            }
            proof {
                assert(a@[(p + k) as int] == amid[k as int]);
                assert(b@[(p + j) as int] == bmid[j as int]);
            }
            let slot_free = acc[j].is_none();
            if slot_free && a[p + k].eq_check(&b[p + j]) {
                found = Some(j);
                proof {
                    assert(first_free(bmid, acc@, amid[k as int], j as int) == Some(j as int));
                }
                break;
            }
            j = j + 1;
        }
        match found {
            Some(jj) => {
                proof {
                    lemma_first_free(bmid, acc@, amid[k as int], 0);
                }
                let rj = &mut acc[jj];
                *rj = Some(k);
                proof {
                    assert(acc@ =~= acc_pre.update(jj as int, Some(k)));
                }
            },
            None => {},
        }
        k = k + 1;
        proof {
            assert(fill(amid, bmid, acc_pre, k - 1) == fill(amid, bmid, acc@, k as int));
        }
    }
    proof {
        assert(fill(amid, bmid, acc@, amid_n as int) == acc@);
        assert(acc@ == fill(amid, bmid, acc0, 0));
        lemma_fill(amid, bmid, acc0, 0);
    }
    // assemble the plan
    let mut plan: Vec<Option<usize>> = Vec::new();
    let mut i: usize = 0;
    while i < bn
        invariant
            i <= bn,
            an == a@.len(),
            bn == b@.len(),
            p + q <= an,
            p + q <= bn,
            amid_n == an - q - p,
            bmid_n == bn - q - p,
            amid == a@.subrange(p as int, (an - q) as int),
            bmid == b@.subrange(p as int, (bn - q) as int),
            acc@.len() == bmid_n,
            acc@ == fill(amid, bmid, Seq::new(bmid.len(), |t: int| None::<usize>), 0),
            forall|j: int|
                0 <= j < acc@.len() && (#[trigger] acc@[j]) is Some ==> (acc@[j].unwrap() as int)
                    < amid_n,
            pre_len(a@, b@) == p as int,
            suf_len(a@, b@, p as int) == q as int,
            plan@.len() == i,
            forall|t: int| 0 <= t < i ==> (#[trigger] plan@[t]) == spec_plan(a@, b@)[t],
        decreases bn - i,
    {
        if i < p {
            plan.push(Some(i));
        } else if i >= bn - q {
            plan.push(Some(an - (bn - i)));
        } else {
            match acc[i - p] {
                Some(jj) => {
                    plan.push(Some(jj + p));
                },
                None => {
                    plan.push(None);
                },
            }
        }
        i = i + 1;
        proof {
            let sp = spec_plan(a@, b@);
            let t = i - 1;
            if t < p as int {
                assert(sp[t] == Some(t as usize));
            } else if t >= bn - q {
                assert(sp[t] == Some((t - b@.len() + a@.len()) as usize));
            } else {
                assert(sp[t] == (match fill(
                    a@.subrange(p as int, (an - q) as int),
                    b@.subrange(p as int, (bn - q) as int),
                    Seq::new(b@.subrange(p as int, (bn - q) as int).len(), |t2: int| None::<usize>),
                    0,
                )[t - p as int] {
                    Some(j) => Some(((j as int) + p as int) as usize),
                    None => None,
                }));
            }
        }
    }
    proof {
        assert(plan@ =~= spec_plan(a@, b@));
    }
    plan
}

/// Moves the content of slot `j` out, leaving `None` behind.
pub(crate) fn take_slot<U>(v: &mut Vec<Option<U>>, j: usize) -> (r: Option<U>)
    requires
        (j as int) < old(v)@.len(),
    ensures
        r == old(v)@[j as int],
        final(v)@ == old(v)@.update(j as int, None::<U>),
{
    let mut slot: Option<U> = None;
    let rv = &mut v[j];
    core::mem::swap(rv, &mut slot);
    slot
}

/// The state of a keyed mapping over a tracked sequence: the source handle,
/// the per-item mapping function, and the previous items, outputs and
/// per-item scopes, used as the diff baseline for the next update.
pub struct KeyedState<T, U, F> {
    list: StateHandle,
    map_fn: F,
    items: Vec<T>,
    mapped: Vec<U>,
    scopes: Vec<usize>,
}

impl<T: Datum, U: Datum, F: Fn(&T) -> U> KeyedState<T, U, F> {
    /// The handle of the source sequence.
    pub closed spec fn list_spec(&self) -> StateHandle {
        self.list
    }

    /// The mapping function.
    pub closed spec fn fn_spec(&self) -> F {
        self.map_fn
    }

    /// The baseline items of the last update.
    pub closed spec fn items_spec(&self) -> Seq<T> {
        self.items@
    }

    /// The outputs of the last update.
    pub closed spec fn mapped_spec(&self) -> Seq<U> {
        self.mapped@
    }

    /// The per-item scopes of the last update.
    pub closed spec fn scopes_spec(&self) -> Seq<usize> {
        self.scopes@
    }

    /// Well-formedness against a runtime: the three parallel arrays agree
    /// and every recorded scope and the source cell exist.
    pub open spec fn wf(&self, m: crate::runtime::Model<Vec<T>>) -> bool {
        &&& self.items_spec().len() == self.mapped_spec().len()
        &&& self.items_spec().len() == self.scopes_spec().len()
        &&& crate::runtime::ids_below(self.scopes_spec(), m.scopes.len() as int)
        &&& (self.list_spec().id as int) < m.sigs.len()
    }

    /// Reads the source sequence (a tracked read: a running computation
    /// subscribes to it), diffs it against the previous items by value, and
    /// rebuilds the outputs: positions planned as reuse take the previous
    /// output and scope of their old index unchanged; fresh positions are
    /// mapped with the mapping function under a new scope; old positions
    /// that were not reused have their scopes disposed.  Returns a duplicate
    /// of the new outputs.  Re-feeding an unchanged sequence reuses every
    /// position: no output moves, no scope is created or disposed.
    pub fn update(&mut self, rt: &mut Runtime<Vec<T>>) -> (out: Vec<U>)
        requires
            old(self).wf(old(rt)@),
            old(rt).inv(),
            forall|t: &T| call_requires(old(self).fn_spec(), (t,)),
        ensures
            final(rt).inv(),
            final(self).wf(final(rt)@),
            final(self).list_spec() == old(self).list_spec(),
            final(self).fn_spec() == old(self).fn_spec(),
            final(rt)@.sigs.len() == old(rt)@.sigs.len(),
            final(rt)@.comps.len() == old(rt)@.comps.len(),
            final(rt)@.frames == old(rt)@.frames,
            final(rt)@.stack == old(rt)@.stack,
            forall|s: int|
                0 <= s < old(rt)@.sigs.len() ==> (#[trigger] final(rt)@.sigs[s]).value == old(
                    rt,
                )@.sigs[s].value,
            ({
                let b = old(rt)@.sigs[old(self).list_spec().id as int].value@;
                &&& final(self).items_spec().len() == b.len()
                &&& forall|i: int| 0 <= i < b.len() ==> (#[trigger] b[i]).veq(
                    &final(self).items_spec()[i],
                )
            }),
            ({
                let plan = spec_plan(old(self).items_spec(), final(self).items_spec());
                &&& final(self).mapped_spec().len() == plan.len()
                &&& final(self).scopes_spec().len() == plan.len()
                &&& forall|i: int|
                    0 <= i < plan.len() ==> match #[trigger] plan[i] {
                        Some(j) => final(self).mapped_spec()[i] == old(self).mapped_spec()[
                            j as int
                        ] && final(self).scopes_spec()[i] == old(self).scopes_spec()[j as int],
                        None => call_ensures(
                            old(self).fn_spec(),
                            (&final(self).items_spec()[i],),
                            final(self).mapped_spec()[i],
                        ) && final(self).scopes_spec()[i] >= old(rt)@.scopes.len(),
                    }
            }),
            ({
                let b = old(rt)@.sigs[old(self).list_spec().id as int].value@;
                (old(self).items_spec().len() == b.len() && (forall|k: int|
                    0 <= k < b.len() ==> (#[trigger] old(self).items_spec()[k]).veq(&b[k])))
                    ==> final(self).mapped_spec() == old(self).mapped_spec()
                        && final(self).scopes_spec() == old(self).scopes_spec()
                        && final(rt)@.scopes == old(rt)@.scopes
            }),
            ({
                let plan = spec_plan(old(self).items_spec(), final(self).items_spec());
                forall|j: int|
                    #![trigger old(self).scopes_spec()[j]]
                    0 <= j < old(self).items_spec().len() && !plan_reuses(plan, j as usize)
                        ==> !final(rt)@.scopes[old(self).scopes_spec()[j] as int].alive
            }),
            ({
                let after_read = track_model(old(rt)@, old(self).list_spec().id as int);
                &&& forall|s: int|
                    0 <= s < old(rt)@.sigs.len() ==> (#[trigger] final(rt)@.sigs[s]).read_active
                        == after_read.sigs[s].read_active
                &&& forall|d: int|
                    0 <= d < old(rt)@.comps.len() ==> ((#[trigger] final(rt)@.comps[d])
                        == after_read.comps[d] || final(rt)@.comps[d] == (CompModel {
                        deps: Seq::<usize>::empty(),
                        alive: false,
                        ..after_read.comps[d]
                    }))
                &&& forall|s: int, d: int|
                    0 <= s < old(rt)@.sigs.len() && 0 <= d < old(rt)@.comps.len()
                        ==> #[trigger] final(rt)@.sigs[s].subs.contains(d as usize) == (
                    after_read.sigs[s].subs.contains(d as usize) && final(rt)@.comps[d]
                        == after_read.comps[d])
            }),
            out@.len() == final(self).mapped_spec().len(),
            forall|i: int|
                0 <= i < out@.len() ==> (#[trigger] final(self).mapped_spec()[i]).veq(&out@[i]),
    {
        let ghost items0 = self.items@;
        let ghost mm0 = self.mapped@;
        let ghost sc0 = self.scopes@;
        let ghost b = old(rt)@.sigs[self.list.id as int].value@;

        // subscribe to the source and duplicate its current items
        let new_items = self.list.get(rt);
        let ghost m1 = rt@;
        proof {
            assert(m1.scopes == old(rt)@.scopes);
            assert(m1.frames == old(rt)@.frames);
            assert(m1.stack == old(rt)@.stack);
            assert(m1.sigs.len() == old(rt)@.sigs.len());
            assert(m1.comps.len() == old(rt)@.comps.len());
            assert forall|s: int|
                0 <= s < old(rt)@.sigs.len() implies (#[trigger] m1.sigs[s]).value == old(
                rt,
            )@.sigs[s].value by {}
        }

        let plan = diff_keyed(&self.items, &new_items);
        proof {
            vstd::std_specs::vec::axiom_spec_len(&self.items);
            vstd::std_specs::vec::axiom_spec_len(&new_items);
            lemma_plan_props(items0, new_items@);
        }
        let old_n: usize = self.items.len();
        let bn: usize = new_items.len();

        // wrap the previous outputs so they can be moved out one by one
        let mut rev: Vec<Option<U>> = Vec::new();
        while self.mapped.len() > 0
            invariant
                rev@.len() + self.mapped@.len() == mm0.len(),
                self.mapped@ == mm0.subrange(0, mm0.len() - rev@.len()),
                forall|t: int|
                    0 <= t < rev@.len() ==> (#[trigger] rev@[t]) == Some(
                        mm0[mm0.len() - 1 - t],
                    ),
                self.items@ == items0,
                self.scopes@ == sc0,
                self.list == old(self).list,
                self.map_fn == old(self).map_fn,
            decreases self.mapped@.len(),
        {
            let x = self.mapped.pop();
            rev.push(x);
            proof {
                assert(self.mapped@ =~= mm0.subrange(0, mm0.len() - rev@.len()));
            }
        }

        // mark-up of which old indices the plan reuses
        let mut used: Vec<bool> = Vec::new();
        let mut t: usize = 0;
        while t < old_n
            invariant
                t <= old_n,
                used@.len() == t,
                forall|jj: int| 0 <= jj < t ==> !(#[trigger] used@[jj]),
            decreases old_n - t,
        {
            used.push(false);
            t = t + 1;
        }

        // build the new outputs and scopes, following the plan
        let mut new_mapped: Vec<U> = Vec::new();
        let mut new_scopes: Vec<usize> = Vec::new();
        let mut i: usize = 0;
        while i < bn
            invariant
                rt.inv(),
                i <= bn,
                old_n == items0.len(),
                bn == new_items@.len(),
                plan@ == spec_plan(items0, new_items@),
                plan@.len() == bn,
                forall|i1: int, i2: int|
                    0 <= i1 < i2 < plan@.len() && plan@[i1] is Some && plan@[i2] is Some
                        ==> plan@[i1] != plan@[i2],
                forall|ii: int|
                    0 <= ii < plan@.len() && (#[trigger] plan@[ii]) is Some ==> (
                    plan@[ii].unwrap() as int) < old_n,
                mm0.len() == old_n,
                sc0.len() == old_n,
                crate::runtime::ids_below(sc0, m1.scopes.len() as int),
                rt@.sigs == m1.sigs,
                rt@.comps == m1.comps,
                rt@.stack == m1.stack,
                rt@.frames == m1.frames,
                rt@.scopes.len() >= m1.scopes.len(),
                (forall|ii: int| 0 <= ii < plan@.len() ==> (#[trigger] plan@[ii]) is Some)
                    ==> rt@.scopes == m1.scopes,
                used@.len() == old_n,
                forall|jj: int|
                    0 <= jj < old_n ==> ((#[trigger] used@[jj]) <==> exists|ii: int|
                        0 <= ii < i && plan@[ii] == Some(jj as usize)),
                rev@.len() == old_n,
                forall|tt: int|
                    0 <= tt < old_n ==> (#[trigger] rev@[tt]) == (if used@[old_n - 1 - tt] {
                        None
                    } else {
                        Some(mm0[old_n - 1 - tt])
                    }),
                new_mapped@.len() == i,
                new_scopes@.len() == i,
                crate::runtime::ids_below(new_scopes@, rt@.scopes.len() as int),
                forall|ii: int|
                    0 <= ii < i ==> match #[trigger] plan@[ii] {
                        Some(j) => new_mapped@[ii] == mm0[j as int] && new_scopes@[ii] == sc0[
                            j as int
                        ],
                        None => call_ensures(
                            old(self).fn_spec(),
                            (&new_items@[ii],),
                            new_mapped@[ii],
                        ) && new_scopes@[ii] >= m1.scopes.len(),
                    },
                self.items@ == items0,
                self.scopes@ == sc0,
                self.list == old(self).list,
                self.map_fn == old(self).map_fn,
                forall|tt: &T| call_requires(old(self).fn_spec(), (tt,)),
            decreases bn - i,
        {
            let step = plan[i];
            match step {
                Some(j) => {
                    proof {
                        assert(plan@[i as int] == Some(j));
                        assert((j as int) < old_n);
                        if used@[j as int] {
                            let ii = choose|ii: int|
                                0 <= ii < i && plan@[ii] == Some(j);
                            assert(plan@[ii] == plan@[i as int]);
                            assert(false);
                        }
                        assert(rev@[(old_n - 1 - j) as int] == Some(mm0[j as int]));
                    }
                    let taken = take_slot(&mut rev, old_n - 1 - j);
                    let u = match taken {
                        Some(u) => u,
                        None => vstd::pervasive::unreached(),
                    };
                    new_mapped.push(u);
                    new_scopes.push(self.scopes[j]);
                    let ru = &mut used[j];
                    *ru = true;
                },
                None => {
                    proof {
                        assert(self.map_fn == old(self).fn_spec());
                    }
                    let u = (self.map_fn)(&new_items[i]);
                    let sc = rt.new_scope(None);
                    new_mapped.push(u);
                    new_scopes.push(sc);
                    proof {
                        assert(!(forall|ii: int|
                            0 <= ii < plan@.len() ==> (#[trigger] plan@[ii]) is Some)) by {
                            assert(plan@[i as int] is None);
                        }
                    }
                },
            }
            i = i + 1;
            proof {
                assert forall|jj: int|
                    0 <= jj < old_n implies ((#[trigger] used@[jj]) <==> exists|ii: int|
                    0 <= ii < i && plan@[ii] == Some(jj as usize)) by {
                    match plan@[i - 1] {
                        Some(j) => {
                            if jj == j as int {
                                assert(plan@[i - 1] == Some(jj as usize));
                            } else {
                                if used@[jj] {
                                    let ii = choose|ii: int|
                                        0 <= ii < i - 1 && plan@[ii] == Some(jj as usize);
                                    assert(plan@[ii] == Some(jj as usize));
                                }
                                if exists|ii: int| 0 <= ii < i && plan@[ii] == Some(jj as usize) {
                                    let ii = choose|ii: int|
                                        0 <= ii < i && plan@[ii] == Some(jj as usize);
                                    if ii == i - 1 {
                                        assert(false);
                                    }
                                }
                            }
                        },
                        None => {
                            if used@[jj] {
                                let ii = choose|ii: int|
                                    0 <= ii < i - 1 && plan@[ii] == Some(jj as usize);
                                assert(plan@[ii] == Some(jj as usize));
                            }
                            if exists|ii: int| 0 <= ii < i && plan@[ii] == Some(jj as usize) {
                                let ii = choose|ii: int|
                                    0 <= ii < i && plan@[ii] == Some(jj as usize);
                                if ii == i - 1 {
                                    assert(false);
                                }
                            }
                        },
                    }
                }
            }
        }

        // dispose the scopes of the old positions that were not reused
        let ghost m2 = rt@;
        proof {
            assert(m1 == track_model(old(rt)@, old(self).list_spec().id as int));
            assert forall|t: int|
                0 <= t < sc0.len() implies (#[trigger] sc0[t]) < m2.scopes.len() as int by {
                assert(sc0[t] < m1.scopes.len() as int);
            }
        }
        rt.dispose_unused(&self.scopes, &used);
        proof {
            assert forall|jj: int|
                0 <= jj < old_n && !(#[trigger] used@[jj]) implies !rt@.scopes[
                sc0[jj] as int
            ].alive by {}
        }

        // install the new baseline
        self.items = new_items;
        self.mapped = new_mapped;
        self.scopes = new_scopes;

        // duplicate the outputs for the caller
        let out = self.mapped.dup();

        proof {
            assert forall|j: int|
                0 <= j < items0.len() && !plan_reuses(plan@, j as usize) implies !rt@.scopes[
                sc0[j] as int
            ].alive by {
                if used@[j] {
                    let ii = choose|ii: int| 0 <= ii < bn && plan@[ii] == Some(j as usize);
                    assert(plan_reuses(plan@, j as usize));
                }
            }
            let bseq = b;
            if items0.len() == bseq.len() && (forall|k: int|
                0 <= k < bseq.len() ==> (#[trigger] items0[k]).veq(&bseq[k])) {
                assert forall|k: int|
                    0 <= k < items0.len() implies (#[trigger] items0[k]).veq(
                    &self.items@[k],
                ) by {
                    assert(bseq[k].veq(&self.items@[k]));
                    items0[k].lemma_veq_trans(&bseq[k], &self.items@[k]);
                }
                lemma_plan_noop(items0, self.items@);
                let plan2 = spec_plan(items0, self.items@);
                assert(plan2 == plan@);
                assert forall|ii: int| 0 <= ii < plan2.len() implies (#[trigger] plan2[ii])
                    is Some by {
                    assert(plan2[ii] == Some(ii as usize));
                }
                assert(bseq.len() == self.items@.len());
                assert(self.mapped@.len() == mm0.len());
                assert forall|ii: int| 0 <= ii < mm0.len() implies (#[trigger] self.mapped@[ii])
                    == mm0[ii] by {
                    assert(plan@[ii] == Some(ii as usize));
                }
                assert forall|ii: int| 0 <= ii < sc0.len() implies (#[trigger] self.scopes@[ii])
                    == sc0[ii] by {
                    assert(plan@[ii] == Some(ii as usize));
                }
                assert(self.mapped@ =~= mm0);
                assert(self.scopes@ =~= sc0);
                assert(old_n == bn);
                assert forall|jj: int| 0 <= jj < old_n implies #[trigger] used@[jj] by {
                    assert(plan@[jj] == Some(jj as usize));
                }
                assert(m2.scopes == m1.scopes);
                assert(rt@.scopes == m2.scopes);
                assert(rt@.scopes == old(rt)@.scopes);
            }
        }
        out
    }
}

/// Creates a keyed mapping of the sequence behind `list` through `map_fn`:
/// the returned state starts from an empty baseline, so its first update
/// maps every item fresh; from then on each update reuses per-item outputs
/// and scopes as the diff allows.
pub fn map_keyed<T: Datum, U: Datum, F: Fn(&T) -> U>(list: StateHandle, map_fn: F) -> (r:
    KeyedState<T, U, F>)
    ensures
        r.list_spec() == list,
        r.fn_spec() == map_fn,
        r.items_spec().len() == 0,
        r.mapped_spec().len() == 0,
        r.scopes_spec().len() == 0,
{
    KeyedState { list, map_fn, items: Vec::new(), mapped: Vec::new(), scopes: Vec::new() }
}

} // verus!

