//! The update planner: the shortest sequence of packages between two
//! revisions.
use vstd::prelude::*;

use crate::metadata::PackageMetadata;
use crate::name::CleanName;
use crate::workspace::opt_name;
use vstd::set_lib::{lemma_int_range, lemma_len_subset, set_int_range};

verus! {

#[derive(Debug, Clone, PartialEq, Eq)]
pub enum PlanError {
    /// No sequence of packages leads from the workspace's revision to the goal.
    NoAvailablePath,
}

/// `p` is a non-empty chain of packages of `ps` that starts at `from`
/// (`None` for an empty workspace): each package goes from the revision the
/// previous one goes to.
pub open spec fn is_chain(ps: Seq<PackageMetadata>, from: Option<Seq<char>>, p: Seq<usize>) -> bool {
    &&& p.len() > 0
    &&& forall|k: int| 0 <= k < p.len() ==> #[trigger] p[k] < ps.len()
    &&& ps[p[0] as int].spec_from() == from
    &&& forall|k: int|
        0 < k < p.len() ==> ps[#[trigger] p[k] as int].spec_from() == Some(ps[p[k - 1] as int].to@)
}

/// `p` is a chain from `from` that ends at revision `goal`.
pub open spec fn is_path(
    ps: Seq<PackageMetadata>,
    from: Option<Seq<char>>,
    goal: Seq<char>,
    p: Seq<usize>,
) -> bool {
    is_chain(ps, from, p) && ps[p.last() as int].to@ == goal
}

/// The total size of the packages of `p`.
pub open spec fn path_size(ps: Seq<PackageMetadata>, p: Seq<usize>) -> int
    decreases p.len(),
{
    if p.len() == 0 {
        0
    } else {
        path_size(ps, p.drop_last()) + ps[p.last() as int].size
    }
}

/// `p` costs no more than `q`: fewer packages, or as many and no more bytes.
pub open spec fn cheaper_or_equal(ps: Seq<PackageMetadata>, p: Seq<usize>, q: Seq<usize>) -> bool {
    p.len() < q.len() || (p.len() == q.len() && path_size(ps, p) <= path_size(ps, q))
}

/// A plan from `from` to `goal`: empty when they are the same revision,
/// else a path that costs no more than any other.
pub open spec fn is_best_plan(
    ps: Seq<PackageMetadata>,
    from: Option<Seq<char>>,
    goal: Seq<char>,
    p: Seq<usize>,
) -> bool {
    if from == Some(goal) {
        p.len() == 0
    } else {
        is_path(ps, from, goal, p) && forall|q: Seq<usize>|
            is_path(ps, from, goal, q) ==> cheaper_or_equal(ps, p, q)
    }
}

/// The cheapest chain found so far that ends with a given package.
pub struct Best {
    pub path: Vec<usize>,
    pub size: u128,
}

pub proof fn lemma_path_size_bound(ps: Seq<PackageMetadata>, p: Seq<usize>)
    ensures
        0 <= path_size(ps, p) <= p.len() * (u64::MAX as int),
    decreases p.len(),
{
    if p.len() > 0 {
        lemma_path_size_bound(ps, p.drop_last());
    }
}

proof fn lemma_chain_prefix(ps: Seq<PackageMetadata>, from: Option<Seq<char>>, p: Seq<usize>)
    requires
        is_chain(ps, from, p),
        p.len() > 1,
    ensures
        is_chain(ps, from, p.drop_last()),
        ps[p.last() as int].spec_from() == Some(ps[p.drop_last().last() as int].to@),
{
    let q = p.drop_last();
    assert(q[0] == p[0]);
    assert forall|k: int| 0 < k < q.len() implies ps[#[trigger] q[k] as int].spec_from() == Some(
        ps[q[k - 1] as int].to@,
    ) by {
        assert(q[k] == p[k] && q[k - 1] == p[k - 1]);
    }
    assert forall|k: int| 0 <= k < q.len() implies #[trigger] q[k] < ps.len() by {
        assert(q[k] == p[k]);
    }
    let last = p.len() - 1;
    assert(p[last] == p.last());
    assert(ps[p[last] as int].spec_from() == Some(ps[p[last - 1] as int].to@));
}

proof fn lemma_chain_push(ps: Seq<PackageMetadata>, from: Option<Seq<char>>, p: Seq<usize>, i: usize)
    requires
        is_chain(ps, from, p),
        i < ps.len(),
        ps[i as int].spec_from() == Some(ps[p.last() as int].to@),
    ensures
        is_chain(ps, from, p.push(i)),
        p.push(i).drop_last() == p,
{
    let q = p.push(i);
    assert(q.drop_last() =~= p);
    assert forall|k: int| 0 < k < q.len() implies ps[#[trigger] q[k] as int].spec_from() == Some(
        ps[q[k - 1] as int].to@,
    ) by {
        if k < p.len() {
            assert(q[k] == p[k] && q[k - 1] == p[k - 1]);
        } else {
            assert(q[k - 1] == p.last());
        }
    }
    assert forall|k: int| 0 <= k < q.len() implies #[trigger] q[k] < ps.len() by {
        if k < p.len() {
            assert(q[k] == p[k]);
        }
    }
}

proof fn lemma_path_size_single(ps: Seq<PackageMetadata>, p: Seq<usize>)
    requires
        p.len() == 1,
    ensures
        path_size(ps, p) == ps[p[0] as int].size,
{
    reveal_with_fuel(path_size, 2);
    assert(p.drop_last().len() == 0);
}

/// Whether package `i` can follow a chain ending with package `j`.
fn follows(ps: &Vec<PackageMetadata>, j: usize, i: usize) -> (r: bool)
    requires
        j < ps@.len(),
        i < ps@.len(),
    ensures
        r == (ps@[i as int].spec_from() == Some(ps@[j as int].to@)),
{
    match &ps[i].from {
        Some(f) => f.same(&ps[j].to),
        None => false,
    }
}

/// Whether package `i` starts at `from`.
fn starts_at(ps: &Vec<PackageMetadata>, from: &Option<CleanName>, i: usize) -> (r: bool)
    requires
        i < ps@.len(),
    ensures
        r == (ps@[i as int].spec_from() == opt_name(*from)),
{
    match (&ps[i].from, from) {
        (Some(a), Some(b)) => a.same(b),
        (None, None) => true,
        _ => false,
    }
}

fn extend_path(p: &Vec<usize>, i: usize) -> (r: Vec<usize>)
    ensures
        r@ == p@.push(i),
{
    let mut r: Vec<usize> = Vec::new();
    let mut k: usize = 0;
    while k < p.len()
        invariant
            k <= p@.len(),
            r@ == p@.subrange(0, k as int),
        decreases p@.len() - k,
    {
        r.push(p[k]);
        k += 1;
        assert(r@ =~= p@.subrange(0, k as int));
    }
    assert(p@.subrange(0, p@.len() as int) =~= p@);
    r.push(i);
    r
}

/// Entry `k` of a layer of chains of `len` packages: a cheapest such chain
/// that ends with package `k`, or none when there is no such chain.
pub open spec fn entry_ok(
    ps: Seq<PackageMetadata>,
    from: Option<Seq<char>>,
    e: Option<Best>,
    k: int,
    len: int,
) -> bool {
    &&& (e matches Some(b) ==> {
        &&& is_chain(ps, from, b.path@)
        &&& b.path@.len() == len
        &&& b.path@.last() == k
        &&& b.size == path_size(ps, b.path@)
    })
    &&& forall|q: Seq<usize>|
        is_chain(ps, from, q) && q.len() == len && q.last() == k ==> covers(e, #[trigger] path_size(ps, q))
}

/// `e` holds a chain of at most `size` bytes.
pub open spec fn covers(e: Option<Best>, size: int) -> bool {
    e is Some && e->Some_0.size <= size
}

/// Every entry of the layer is as [`entry_ok`] says.
pub open spec fn layer_ok(
    ps: Seq<PackageMetadata>,
    from: Option<Seq<char>>,
    layer: Seq<Option<Best>>,
    len: int,
) -> bool {
    &&& layer.len() == ps.len()
    &&& forall|k: int| 0 <= k < layer.len() ==> entry_ok(ps, from, #[trigger] layer[k], k, len)
}

/// The chains of one package that start at `from`.
fn first_layer(ps: &Vec<PackageMetadata>, from: &Option<CleanName>) -> (layer: Vec<Option<Best>>)
    ensures
        layer_ok(ps@, opt_name(*from), layer@, 1),
{
    let mut layer: Vec<Option<Best>> = Vec::new();
    let mut i: usize = 0;
    while i < ps.len()
        invariant
            i <= ps@.len(),
            layer@.len() == i,
            forall|k: int| 0 <= k < i ==> entry_ok(ps@, opt_name(*from), #[trigger] layer@[k], k, 1),
        decreases ps@.len() - i,
    {
        let ghost prev = layer@;
        let entry = if starts_at(ps, from, i) {
            let mut path: Vec<usize> = Vec::new();
            path.push(i);
            proof {
                assert(path@[0] == i);
                lemma_path_size_single(ps@, path@);
                assert(is_chain(ps@, opt_name(*from), path@));
                assert forall|q: Seq<usize>|
                    is_chain(ps@, opt_name(*from), q) && q.len() == 1 && q.last()
                        == i implies path_size(ps@, q) == path_size(ps@, path@) by {
                    assert(q =~= path@);
                }
            }
            Some(Best { path, size: ps[i].size as u128 })
        } else {
            proof {
                assert forall|q: Seq<usize>|
                    is_chain(ps@, opt_name(*from), q) && q.len() == 1 && q.last() == i implies false by {
                    assert(q[0] == q.last());
                }
            }
            None
        };
        assert(entry_ok(ps@, opt_name(*from), entry, i as int, 1));
        layer.push(entry);
        proof {
            assert forall|k: int| 0 <= k < i + 1 implies entry_ok(
                ps@,
                opt_name(*from),
                #[trigger] layer@[k],
                k,
                1,
            ) by {
                if k < i {
                    assert(layer@[k] == prev[k]);
                }
            }
        }
        i += 1;
    }
    layer
}

/// The chains of `len + 1` packages, from the chains of `len` packages.
fn next_layer(
    ps: &Vec<PackageMetadata>,
    from: &Option<CleanName>,
    layer: &Vec<Option<Best>>,
    len: usize,
) -> (next: Vec<Option<Best>>)
    requires
        layer_ok(ps@, opt_name(*from), layer@, len as int),
        1 <= len < ps@.len(),
    ensures
        layer_ok(ps@, opt_name(*from), next@, len + 1),
{
    let ghost f = opt_name(*from);
    let n = ps.len();
    let mut next: Vec<Option<Best>> = Vec::new();
    let mut i: usize = 0;
    while i < n
        invariant
            n == ps@.len(),
            1 <= len < n,
            layer_ok(ps@, f, layer@, len as int),
            f == opt_name(*from),
            i <= n,
            next@.len() == i,
            forall|k: int| 0 <= k < i ==> entry_ok(ps@, f, #[trigger] next@[k], k, len + 1),
        decreases n - i,
    {
        let mut cand: Option<Best> = None;
        let mut j: usize = 0;
        while j < n
            invariant
                n == ps@.len(),
                1 <= len < n,
                i < n,
                layer_ok(ps@, f, layer@, len as int),
                j <= n,
                cand matches Some(b) ==> {
                    &&& is_chain(ps@, f, b.path@)
                    &&& b.path@.len() == len + 1
                    &&& b.path@.last() == i
                    &&& b.size == path_size(ps@, b.path@)
                },
                forall|m: int|
                    0 <= m < j && (#[trigger] layer@[m]) is Some && ps@[i as int].spec_from() == Some(
                        ps@[m].to@,
                    ) ==> cand is Some && cand->Some_0.size <= layer@[m]->Some_0.size
                        + ps@[i as int].size,
            decreases n - j,
        {
            assert(entry_ok(ps@, f, layer@[j as int], j as int, len as int));
            match &layer[j] {
                Some(b) => {
                    if follows(ps, j, i) {
                        proof {
                            lemma_path_size_bound(ps@, b.path@);
                            assert(len * (u64::MAX as int) + u64::MAX <= (len + 1) * (u64::MAX as int))
                                by (nonlinear_arith);
                            assert((len + 1) * (u64::MAX as int) <= u64::MAX * (u64::MAX as int))
                                by (nonlinear_arith)
                                requires
                                    len + 1 <= u64::MAX,
                            ;
                        }
                        let size = b.size + ps[i].size as u128;
                        let better = match &cand {
                            Some(c) => size < c.size,
                            None => true,
                        };
                        if better {
                            let path = extend_path(&b.path, i);
                            proof {
                                lemma_chain_push(ps@, f, b.path@, i);
                            }
                            cand = Some(Best { path, size });
                        }
                    }
                },
                None => {},
            }
            j += 1;
        }
        proof {
            lemma_candidate_ok(ps@, f, layer@, len as int, i as int, cand);
        }
        let ghost prev = next@;
        next.push(cand);
        proof {
            assert forall|k: int| 0 <= k < i + 1 implies entry_ok(
                ps@,
                f,
                #[trigger] next@[k],
                k,
                len + 1,
            ) by {
                if k < i {
                    assert(next@[k] == prev[k]);
                }
            }
        }
        i += 1;
    }
    next
}

proof fn lemma_candidate_ok(
    ps: Seq<PackageMetadata>,
    f: Option<Seq<char>>,
    layer: Seq<Option<Best>>,
    len: int,
    i: int,
    cand: Option<Best>,
)
    requires
        layer_ok(ps, f, layer, len),
        len >= 1,
        0 <= i < ps.len(),
        cand matches Some(b) ==> {
            &&& is_chain(ps, f, b.path@)
            &&& b.path@.len() == len + 1
            &&& b.path@.last() == i
            &&& b.size == path_size(ps, b.path@)
        },
        forall|m: int|
            0 <= m < ps.len() && (#[trigger] layer[m]) is Some && ps[i].spec_from() == Some(
                ps[m].to@,
            ) ==> cand is Some && cand->Some_0.size <= layer[m]->Some_0.size + ps[i].size,
    ensures
        entry_ok(ps, f, cand, i, len + 1),
{
    assert forall|q: Seq<usize>|
        is_chain(ps, f, q) && q.len() == len + 1 && q.last() == i implies covers(cand, #[trigger] path_size(ps, q)) by {
        lemma_chain_prefix(ps, f, q);
        let pre = q.drop_last();
        assert(pre[pre.len() - 1] == pre.last());
        let m = pre.last() as int;
        assert(entry_ok(ps, f, layer[m], m, len));
        assert(path_size(ps, pre) >= 0);
        assert(layer[m] is Some);
        assert(layer[m]->Some_0.size <= path_size(ps, pre));
        assert(path_size(ps, q) == path_size(ps, pre) + ps[i].size);
    }
}

/// The entry of `layer` that ends at `goal` with the smallest size.
fn cheapest_at_goal(ps: &Vec<PackageMetadata>, layer: &Vec<Option<Best>>, goal: &CleanName) -> (r:
    Option<usize>)
    requires
        layer@.len() == ps@.len(),
    ensures
        r is None ==> forall|k: int|
            0 <= k < layer@.len() && (#[trigger] layer@[k]) is Some ==> ps@[k].to@ != goal@,
        r matches Some(k) ==> {
            &&& k < layer@.len()
            &&& layer@[k as int] is Some
            &&& ps@[k as int].to@ == goal@
            &&& forall|m: int|
                0 <= m < layer@.len() && (#[trigger] layer@[m]) is Some && ps@[m].to@ == goal@
                    ==> layer@[k as int]->Some_0.size <= layer@[m]->Some_0.size
        },
{
    let mut found: Option<usize> = None;
    let mut k: usize = 0;
    while k < layer.len()
        invariant
            layer@.len() == ps@.len(),
            k <= layer@.len(),
            found is None ==> forall|m: int|
                0 <= m < k && (#[trigger] layer@[m]) is Some ==> ps@[m].to@ != goal@,
            found matches Some(x) ==> {
                &&& x < k
                &&& layer@[x as int] is Some
                &&& ps@[x as int].to@ == goal@
                &&& forall|m: int|
                    0 <= m < k && (#[trigger] layer@[m]) is Some && ps@[m].to@ == goal@
                        ==> layer@[x as int]->Some_0.size <= layer@[m]->Some_0.size
            },
        decreases layer@.len() - k,
    {
        match &layer[k] {
            Some(b) => {
                if ps[k].to.same(goal) {
                    let better = match found {
                        Some(x) => match &layer[x] {
                            Some(c) => b.size < c.size,
                            None => true,
                        },
                        None => true,
                    };
                    if better {
                        found = Some(k);
                    }
                }
            },
            None => {},
        }
        k += 1;
    }
    found
}

proof fn lemma_pigeonhole(q: Seq<usize>, n: int)
    requires
        forall|k: int| 0 <= k < q.len() ==> #[trigger] q[k] < n,
        q.len() > n,
        n >= 0,
    ensures
        exists|a: int, b: int| 0 <= a < b < q.len() && #[trigger] q[a] == #[trigger] q[b],
{
    let qi = q.map_values(|x: usize| x as int);
    if !exists|a: int, b: int| 0 <= a < b < q.len() && #[trigger] q[a] == #[trigger] q[b] {
        assert(qi.no_duplicates()) by {
            assert forall|a: int, b: int| 0 <= a < qi.len() && 0 <= b < qi.len() && a != b implies qi[a]
                != qi[b] by {
                if a < b {
                    assert(q[a] != q[b]);
                } else {
                    assert(q[b] != q[a]);
                }
            }
        }
        qi.unique_seq_to_set();
        lemma_int_range(0, n);
        assert(qi.to_set().subset_of(set_int_range(0, n))) by {
            assert forall|x: int| qi.to_set().contains(x) implies set_int_range(0, n).contains(x) by {
                let k = choose|k: int| 0 <= k < qi.len() && qi[k] == x;
                assert(q[k] < n);
            }
        }
        lemma_len_subset(qi.to_set(), set_int_range(0, n));
    }
}

/// Whenever a path exists, one exists that uses no more packages than
/// there are.
proof fn lemma_short_path(ps: Seq<PackageMetadata>, from: Option<Seq<char>>, goal: Seq<char>, q: Seq<usize>)
    requires
        is_path(ps, from, goal, q),
    ensures
        exists|r: Seq<usize>| is_path(ps, from, goal, r) && r.len() <= ps.len(),
    decreases q.len(),
{
    if q.len() <= ps.len() {
        assert(is_path(ps, from, goal, q) && q.len() <= ps.len());
    } else {
        lemma_pigeonhole(q, ps.len() as int);
        let (a, b) = choose|a: int, b: int| 0 <= a < b < q.len() && #[trigger] q[a] == #[trigger] q[b];
        let r = q.subrange(0, a) + q.subrange(b, q.len() as int);
        assert(r.len() == q.len() - (b - a));
        assert forall|k: int| 0 <= k < r.len() implies #[trigger] r[k] < ps.len() by {
            if k < a {
                assert(r[k] == q[k]);
            } else {
                assert(r[k] == q[k + b - a]);
            }
        }
        assert forall|k: int| 0 < k < r.len() implies ps[#[trigger] r[k] as int].spec_from() == Some(
            ps[r[k - 1] as int].to@,
        ) by {
            if k < a {
                assert(r[k] == q[k] && r[k - 1] == q[k - 1]);
            } else if k == a {
                assert(r[k] == q[b] && r[k - 1] == q[a - 1]);
                assert(q[a] == q[b]);
            } else {
                assert(r[k] == q[k + b - a] && r[k - 1] == q[k - 1 + b - a]);
            }
        }
        if a == 0 {
            assert(r[0] == q[b]);
        } else {
            assert(r[0] == q[0]);
        }
        assert(r.last() == q.last());
        assert(is_path(ps, from, goal, r));
        lemma_short_path(ps, from, goal, r);
    }
}

proof fn lemma_found_is_best(
    ps: Seq<PackageMetadata>,
    f: Option<Seq<char>>,
    goal: Seq<char>,
    lay: Seq<Option<Best>>,
    len: int,
    k: int,
)
    requires
        f != Some(goal),
        layer_ok(ps, f, lay, len),
        forall|q: Seq<usize>| is_path(ps, f, goal, q) ==> q.len() >= len,
        0 <= k < lay.len(),
        lay[k] is Some,
        ps[k].to@ == goal,
        forall|m: int|
            0 <= m < lay.len() && (#[trigger] lay[m]) is Some && ps[m].to@ == goal ==> lay[k]->Some_0.size
                <= lay[m]->Some_0.size,
    ensures
        is_best_plan(ps, f, goal, lay[k]->Some_0.path@),
{
    let b = lay[k]->Some_0;
    assert(entry_ok(ps, f, lay[k], k, len));
    assert forall|q: Seq<usize>| is_path(ps, f, goal, q) implies cheaper_or_equal(ps, b.path@, q) by {
        if q.len() == len {
            assert(q[q.len() - 1] == q.last());
            let m = q.last() as int;
            assert(entry_ok(ps, f, lay[m], m, len));
            assert(path_size(ps, q) >= 0);
            assert(lay[m] is Some);
        }
    }
}

proof fn lemma_none_at_len(
    ps: Seq<PackageMetadata>,
    f: Option<Seq<char>>,
    goal: Seq<char>,
    lay: Seq<Option<Best>>,
    len: int,
)
    requires
        layer_ok(ps, f, lay, len),
        forall|q: Seq<usize>| is_path(ps, f, goal, q) ==> q.len() >= len,
        forall|k: int| 0 <= k < lay.len() && (#[trigger] lay[k]) is Some ==> ps[k].to@ != goal,
    ensures
        forall|q: Seq<usize>| is_path(ps, f, goal, q) ==> q.len() >= len + 1,
{
    assert forall|q: Seq<usize>| is_path(ps, f, goal, q) implies q.len() >= len + 1 by {
        if q.len() == len {
            assert(q[q.len() - 1] == q.last());
            let m = q.last() as int;
            assert(entry_ok(ps, f, lay[m], m, len));
            assert(path_size(ps, q) >= 0);
            assert(lay[m] is Some);
        }
    }
}

/// Plans an update from `from` (`None` for an empty workspace) to `goal`:
/// no packages when the workspace is at `goal` already, else a sequence of
/// packages (their positions in `ps`), each going from the revision the
/// previous one goes to, that uses as few packages as possible and, among
/// those, the fewest bytes. Fails exactly when no such sequence exists.
pub fn plan(ps: &Vec<PackageMetadata>, from: &Option<CleanName>, goal: &CleanName) -> (r: Result<
    Vec<usize>,
    PlanError,
>)
    ensures
        r matches Ok(p) ==> is_best_plan(ps@, opt_name(*from), goal@, p@),
        r is Err <==> opt_name(*from) != Some(goal@) && forall|q: Seq<usize>|
            !is_path(ps@, opt_name(*from), goal@, q),
        r is Err ==> r == Err::<Vec<usize>, PlanError>(PlanError::NoAvailablePath),
{
    let ghost f = opt_name(*from);
    let at_goal = match from {
        Some(x) => x.same(goal),
        None => false,
    };
    if at_goal {
        return Ok(Vec::new());
    }
    let n = ps.len();
    if n == 0 {
        return Err(PlanError::NoAvailablePath);
    }
    let mut layer = first_layer(ps, from);
    let mut len: usize = 1;
    loop
        invariant
            n == ps@.len(),
            n >= 1,
            1 <= len <= n,
            f == opt_name(*from),
            f != Some(goal@),
            layer_ok(ps@, f, layer@, len as int),
            forall|q: Seq<usize>| is_path(ps@, f, goal@, q) ==> q.len() >= len,
        decreases n - len,
    {
        match cheapest_at_goal(ps, &layer, goal) {
            Some(k) => {
                let ghost lay = layer@;
                proof {
                    lemma_found_is_best(ps@, f, goal@, lay, len as int, k as int);
                }
                let entry = layer.remove(k);
                assert(entry == lay[k as int]);
                match entry {
                    Some(b) => {
                        return Ok(b.path);
                    },
                    None => {
                        return Err(PlanError::NoAvailablePath);
                    },
                }
            },
            None => {
                proof {
                    lemma_none_at_len(ps@, f, goal@, layer@, len as int);
                }
                if len == n {
                    proof {
                        assert forall|q: Seq<usize>| !is_path(ps@, f, goal@, q) by {
                            if is_path(ps@, f, goal@, q) {
                                lemma_short_path(ps@, f, goal@, q);
                            }
                        }
                    }
                    return Err(PlanError::NoAvailablePath);
                }
                layer = next_layer(ps, from, &layer, len);
                len = len + 1;
            },
        }
    }
}

} // verus!
