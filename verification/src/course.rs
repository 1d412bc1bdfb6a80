//! Teaching order: the annotations of one course unit, sequenced so that an
//! annotation never precedes one it leans on, and otherwise in reading order.
use crate::store::{store_units, Store, Unit};
use crate::text::str_eq;
use vstd::set_lib::{lemma_int_range, lemma_len_subset, set_int_range};
use vstd::prelude::*;
use vstd::string::StringExecFns;

verus! {

/// `u` is tagged with course unit `unit_id`.
pub open spec fn in_unit(u: Unit, unit_id: Seq<char>) -> bool {
    u.annotation.course_unit is Some && u.annotation.course_unit->0@ == unit_id
}

/// The units tagged with `unit_id`, in the order given.
pub open spec fn pool_of(units: Seq<Unit>, unit_id: Seq<char>) -> Seq<Unit>
    decreases units.len(),
{
    if units.len() == 0 {
        Seq::empty()
    } else if in_unit(units.last(), unit_id) {
        pool_of(units.drop_last(), unit_id).push(units.last())
    } else {
        pool_of(units.drop_last(), unit_id)
    }
}

/// A reading-order entry names `file` of `source`: qualified as
/// `source:file`, or bare when `source` is the first coverage source.
pub open spec fn rank_matches(
    f: Seq<char>,
    source: Seq<char>,
    file: Seq<char>,
    first: Seq<char>,
) -> bool {
    f == source + seq![':'] + file || (source == first && f == file)
}

/// Position of the first reading-order entry naming `file` of `source`;
/// unlisted files rank last.
pub open spec fn rank_in(ro: Seq<String>, source: Seq<char>, file: Seq<char>, first: Seq<char>) -> int
    decreases ro.len(),
{
    if ro.len() == 0 {
        usize::MAX as int
    } else if rank_matches(ro[0]@, source, file, first) {
        0
    } else {
        let r = rank_in(ro.drop_first(), source, file, first);
        if r == usize::MAX {
            r
        } else {
            r + 1
        }
    }
}

proof fn lemma_rank_in(ro: Seq<String>, source: Seq<char>, file: Seq<char>, first: Seq<char>, i: int)
    requires
        0 <= i <= ro.len(),
        ro.len() <= usize::MAX,
        forall|k: int| 0 <= k < i ==> !rank_matches(#[trigger] ro[k]@, source, file, first),
        i < ro.len() ==> rank_matches(ro[i]@, source, file, first),
    ensures
        rank_in(ro, source, file, first) == if i < ro.len() {
            i
        } else {
            usize::MAX as int
        },
    decreases i,
{
    if i > 0 {
        let r = ro.drop_first();
        assert forall|k: int| 0 <= k < i - 1 implies !rank_matches(
            #[trigger] r[k]@,
            source,
            file,
            first,
        ) by {
            assert(r[k] == ro[k + 1]);
        }
        if i < ro.len() {
            assert(r[i - 1] == ro[i]);
        }
        lemma_rank_in(r, source, file, first, i - 1);
        assert(!rank_matches(ro[0]@, source, file, first));
    }
}

/// The sort key of an annotation within a unit: its file's reading-order
/// rank, then its starting line.
pub open spec fn key_of(store: Store, u: Unit) -> (int, int) {
    (
        rank_in(store.reading_order@, u.source@, u.annotation.file@, store.sources@[0].name@),
        u.range.start as int,
    )
}

pub open spec fn key_lt(a: (int, int), b: (int, int)) -> bool {
    a.0 < b.0 || (a.0 == b.0 && a.1 < b.1)
}

/// Index `a` sorts before index `b`: by key, and by original position
/// among equal keys (a stable sort).
pub open spec fn idx_lt(keys: Seq<(int, int)>, a: int, b: int) -> bool {
    key_lt(keys[a], keys[b]) || (keys[a] == keys[b] && a < b)
}

/// `sp` lists `0..keys.len()` once each, stably sorted by key.
pub open spec fn stable_sorted(sp: Seq<int>, keys: Seq<(int, int)>) -> bool {
    &&& sp.len() == keys.len()
    &&& forall|x: int| 0 <= x < sp.len() ==> 0 <= #[trigger] sp[x] < keys.len()
    &&& forall|v: int| 0 <= v < keys.len() ==> #[trigger] sp.contains(v)
    &&& forall|x: int, y: int| 0 <= x < y < sp.len() ==> idx_lt(keys, #[trigger] sp[x], #[trigger] sp[y])
}

/// The names a unit leans on: its prereqs, then its macro definition.
pub open spec fn dep_names(u: Unit) -> Seq<Seq<char>> {
    u.annotation.prereqs@.map_values(|s: String| s@) + if u.annotation.macro_def is Some {
        seq![u.annotation.macro_def->0@]
    } else {
        Seq::<Seq<char>>::empty()
    }
}

/// `j` is the last position in `pool` of an annotation with this id.
pub open spec fn last_of_id(pool: Seq<Unit>, name: Seq<char>, j: int) -> bool {
    &&& 0 <= j < pool.len()
    &&& pool[j].annotation.id@ == name
    &&& forall|m: int| j < m < pool.len() ==> (#[trigger] pool[m]).annotation.id@ != name
}

/// Within `pool`, the annotation at `i` leans on the one at `j`: one of its
/// dependency names is the id of `j`, and no later annotation has that id.
/// Names that no annotation of the pool carries lead nowhere.
pub open spec fn is_dep(pool: Seq<Unit>, i: int, j: int) -> bool {
    &&& 0 <= i < pool.len()
    &&& last_of_id(pool, pool[j].annotation.id@, j)
    &&& dep_names(pool[i]).contains(pool[j].annotation.id@)
}

/// `i` is not taken yet, and everything it leans on is.
pub open spec fn ready(dep: spec_fn(int, int) -> bool, n: int, taken: Seq<int>, i: int) -> bool {
    &&& 0 <= i < n
    &&& !taken.contains(i)
    &&& forall|j: int| #[trigger] dep(i, j) ==> taken.contains(j)
}

/// Step `k` took the position-earliest node that was ready.
pub open spec fn greedy_step(dep: spec_fn(int, int) -> bool, n: int, ord: Seq<int>, k: int) -> bool {
    &&& ready(dep, n, ord.take(k), ord[k])
    &&& forall|i: int| 0 <= i < ord[k] ==> !#[trigger] ready(dep, n, ord.take(k), i)
}

/// `ord` lists every position below `n` once.
pub open spec fn is_permutation(ord: Seq<int>, n: int) -> bool {
    &&& ord.len() == n
    &&& forall|k: int| 0 <= k < ord.len() ==> 0 <= #[trigger] ord[k] < n
    &&& ord.no_duplicates()
}

/// Teaching order over `n` nodes: each step takes the position-earliest node
/// whose dependencies have all been taken; if a cycle strands every remaining
/// node, the rest follow in position order.
pub open spec fn teaching_order(dep: spec_fn(int, int) -> bool, n: int, ord: Seq<int>) -> bool {
    &&& is_permutation(ord, n)
    &&& exists|k0: int| #[trigger] greedy_prefix(dep, n, ord, k0)
}

/// The first `k0` steps of `ord` are greedy; if that is not all of them,
/// nothing was ready at `k0` and the rest ascend.
pub open spec fn greedy_prefix(dep: spec_fn(int, int) -> bool, n: int, ord: Seq<int>, k0: int) -> bool {
    &&& 0 <= k0 <= ord.len()
    &&& forall|k: int| 0 <= k < k0 ==> #[trigger] greedy_step(dep, n, ord, k)
    &&& k0 < ord.len() ==> {
        &&& forall|i: int| !#[trigger] ready(dep, n, ord.take(k0), i)
        &&& forall|k1: int, k2: int| k0 <= k1 < k2 < ord.len() ==> #[trigger] ord[k1] < #[trigger] ord[k2]
    }
}

/// Exec positions as integers.
pub open spec fn positions(v: Seq<usize>) -> Seq<int> {
    v.map_values(|x: usize| x as int)
}

/// The dependency relation of a pool.
pub open spec fn pool_deps(pool: Seq<Unit>) -> spec_fn(int, int) -> bool {
    |i: int, j: int| is_dep(pool, i, j)
}

/// The dependency relation held as lists of positions.
pub open spec fn list_deps(pending: Seq<Vec<usize>>) -> spec_fn(int, int) -> bool {
    |i: int, j: int| 0 <= i < pending.len() && 0 <= j < pending.len() && pending[i]@.contains(j as usize)
}

/// What `course_annotations` returns, given the stable sort `sp` of the
/// unit's annotations and the teaching order `ord` over the sorted pool.
pub open spec fn course_result(
    store: Store,
    unit_id: Seq<char>,
    out: Seq<Unit>,
    sp: Seq<int>,
    ord: Seq<int>,
) -> bool {
    let pool0 = pool_of(store_units(store.sources@), unit_id);
    let keys = pool0.map_values(|u: Unit| key_of(store, u));
    let pool = sp.map_values(|x: int| pool0[x]);
    &&& stable_sorted(sp, keys)
    &&& teaching_order(pool_deps(pool), pool.len() as int, ord)
    &&& out == ord.map_values(|x: int| pool[x])
}

/// Distinct positions below `n` number at most `n`, and exactly `n` when
/// every position occurs.
proof fn lemma_distinct_positions(s: Seq<int>, n: int)
    requires
        0 <= n,
        s.no_duplicates(),
        forall|k: int| 0 <= k < s.len() ==> 0 <= #[trigger] s[k] < n,
    ensures
        s.len() <= n,
        (forall|v: int| 0 <= v < n ==> #[trigger] s.contains(v)) ==> s.len() == n,
{
    s.unique_seq_to_set();
    lemma_int_range(0, n);
    assert(s.to_set().subset_of(set_int_range(0, n)));
    lemma_len_subset(s.to_set(), set_int_range(0, n));
    if forall|v: int| 0 <= v < n ==> #[trigger] s.contains(v) {
        assert(s.to_set() =~= set_int_range(0, n));
    }
}

/// Whether every dependency of `i` is taken.
fn deps_taken(deps: &Vec<usize>, taken: &Vec<bool>) -> (r: bool)
    requires
        forall|x: int| 0 <= x < deps@.len() ==> #[trigger] deps@[x] < taken@.len(),
    ensures
        r == forall|x: int| 0 <= x < deps@.len() ==> taken@[#[trigger] deps@[x] as int],
{
    let mut x: usize = 0;
    while x < deps.len()
        invariant
            x <= deps@.len(),
            forall|y: int| 0 <= y < deps@.len() ==> #[trigger] deps@[y] < taken@.len(),
            forall|y: int| 0 <= y < x ==> taken@[#[trigger] deps@[y] as int],
        decreases deps@.len() - x,
    {
        if !taken[deps[x]] {
            return false;
        }
        x += 1;
    }
    true
}

/// Kahn's algorithm over positions `0..pending.len()`, always taking the
/// position-earliest ready node; a cycle sends the rest out in position order.
fn teaching_sequence(pending: &Vec<Vec<usize>>) -> (ord: Vec<usize>)
    requires
        forall|i: int, x: int|
            0 <= i < pending@.len() && 0 <= x < pending@[i]@.len() ==> #[trigger] pending@[i]@[x]
                < pending@.len(),
    ensures
        teaching_order(
            list_deps(pending@),
            pending@.len() as int,
            ord@.map_values(|x: usize| x as int),
        ),
{
    let n = pending.len();
    let ghost dep = list_deps(pending@);
    let mut taken: Vec<bool> = Vec::new();
    while taken.len() < n
        invariant
            taken@.len() <= n,
            forall|i: int| 0 <= i < taken@.len() ==> !#[trigger] taken@[i],
        decreases n - taken@.len(),
    {
        taken.push(false);
    }
    let mut order: Vec<usize> = Vec::new();
    let ghost mut k0: int = 0;
    loop
        invariant_except_break
            taken@.len() == n,
            n == pending@.len(),
            dep == list_deps(pending@),
            forall|i: int, x: int|
                0 <= i < pending@.len() && 0 <= x < pending@[i]@.len() ==> #[trigger] pending@[i]@[x]
                    < pending@.len(),
            ({
                let ord = order@.map_values(|x: usize| x as int);
                &&& ord.no_duplicates()
                &&& forall|k: int| 0 <= k < ord.len() ==> 0 <= #[trigger] ord[k] < n
                &&& forall|i: int| 0 <= i < n ==> (taken@[i] <==> #[trigger] ord.contains(i))
                &&& forall|k: int| 0 <= k < ord.len() ==> #[trigger] greedy_step(dep, n as int, ord, k)
            }),
        ensures
            teaching_order(dep, n as int, order@.map_values(|x: usize| x as int)),
        decreases n - order@.len(),
    {
        let ghost ord = order@.map_values(|x: usize| x as int);
        proof {
            lemma_distinct_positions(ord, n as int);
        }
        if order.len() == n {
            assert(greedy_prefix(dep, n as int, ord, ord.len() as int));
            break;
        }
        let mut next: Option<usize> = None;
        let mut i: usize = 0;
        while i < n
            invariant_except_break
                next is None,
            invariant
                i <= n,
                taken@.len() == n,
                n == pending@.len(),
                dep == list_deps(pending@),
                forall|i: int, x: int|
                    0 <= i < pending@.len() && 0 <= x < pending@[i]@.len() ==> #[trigger] pending@[i]@[x]
                        < pending@.len(),
                forall|j: int| 0 <= j < n ==> (taken@[j] <==> #[trigger] ord.contains(j)),
                forall|j: int| 0 <= j < i ==> !#[trigger] ready(dep, n as int, ord, j),
            ensures
                next matches Some(v) ==> v < n && ready(dep, n as int, ord, v as int) && forall|j: int|
                    0 <= j < v ==> !#[trigger] ready(dep, n as int, ord, j),
                next is None ==> forall|j: int| 0 <= j < n ==> !#[trigger] ready(dep, n as int, ord, j),
            decreases n - i,
        {
            let free = !taken[i];
            let met = deps_taken(&pending[i], &taken);
            if free && met {
                assert forall|j: int| #[trigger] dep(i as int, j) implies ord.contains(j) by {
                    let x = choose|x: int| 0 <= x < pending@[i as int]@.len() && pending@[i as int]@[x] == j as usize;
                    assert(taken@[pending@[i as int]@[x] as int]);
                }
                next = Some(i);
                break;
            }
            if !met {
                let ghost x = choose|x: int| 0 <= x < pending@[i as int]@.len() && !taken@[#[trigger] pending@[i as int]@[x] as int];
                let ghost j = pending@[i as int]@[x] as int;
                assert(pending@[i as int]@.contains(j as usize));
                assert(dep(i as int, j));
            }
            i += 1;
        }
        match next {
            Some(v) => {
                taken.set(v, true);
                order.push(v);
                let ghost ord2 = order@.map_values(|x: usize| x as int);
                assert(ord2 =~= ord.push(v as int));
                assert(ord.take(ord.len() as int) =~= ord);
                assert forall|k: int| 0 <= k < ord2.len() implies #[trigger] greedy_step(dep, n as int, ord2, k) by {
                    if k < ord.len() {
                        assert(ord2.take(k) =~= ord.take(k));
                        assert(greedy_step(dep, n as int, ord, k));
                    } else {
                        assert(ord2.take(k) =~= ord);
                    }
                }
                assert forall|j: int| 0 <= j < n implies (taken@[j] <==> #[trigger] ord2.contains(j)) by {
                    if j != v {
                        if ord2.contains(j) {
                            let k = choose|k: int| 0 <= k < ord2.len() && ord2[k] == j;
                            assert(ord[k] == j);
                        }
                        if ord.contains(j) {
                            let k = choose|k: int| 0 <= k < ord.len() && ord[k] == j;
                            assert(ord2[k] == j);
                        }
                    } else {
                        assert(ord2[ord.len() as int] == j);
                    }
                }
            },
            None => {
                let ghost base = ord;
                proof {
                    k0 = base.len() as int;
                }
                let mut i: usize = 0;
                while i < n
                    invariant
                        i <= n,
                        taken@.len() == n,
                        positions(order@).len() >= base.len(),
                        positions(order@).take(base.len() as int) == base,
                        positions(order@).no_duplicates(),
                        forall|k: int| 0 <= k < positions(order@).len() ==> 0 <= #[trigger] positions(order@)[k] < n,
                        forall|j: int| 0 <= j < n ==> (taken@[j] <==> #[trigger] positions(order@).contains(j)),
                        forall|j: int| 0 <= j < i ==> #[trigger] taken@[j],
                        forall|j: int| i <= j < n ==> (#[trigger] taken@[j] <==> base.contains(j)),
                        forall|k: int| base.len() <= k < positions(order@).len() ==> #[trigger] positions(order@)[k] < i,
                        forall|k1: int, k2: int|
                            base.len() <= k1 < k2 < positions(order@).len() ==> #[trigger] positions(order@)[k1] < #[trigger] positions(order@)[k2],
                    decreases n - i,
                {
                    if !taken[i] {
                        let ghost o1 = order@.map_values(|x: usize| x as int);
                        taken.set(i, true);
                        order.push(i);
                        let ghost o2 = order@.map_values(|x: usize| x as int);
                        assert(o2 =~= o1.push(i as int));
                        assert(o2.take(base.len() as int) =~= o1.take(base.len() as int));
                        assert(!o1.contains(i as int));
                        assert forall|a: int, b: int|
                            0 <= a < o2.len() && 0 <= b < o2.len() && a != b implies o2[a] != o2[b] by {
                            if a == o1.len() {
                                assert(o1[b] != i);
                            } else if b == o1.len() {
                                assert(o1[a] != i);
                            }
                        }
                        assert forall|j: int| 0 <= j < n implies (taken@[j] <==> #[trigger] o2.contains(j)) by {
                            if j != i {
                                if o2.contains(j) {
                                    let k = choose|k: int| 0 <= k < o2.len() && o2[k] == j;
                                    assert(o1[k] == j);
                                }
                                if o1.contains(j) {
                                    let k = choose|k: int| 0 <= k < o1.len() && o1[k] == j;
                                    assert(o2[k] == j);
                                }
                            } else {
                                assert(o2[o1.len() as int] == j);
                            }
                        }
                    }
                    i += 1;
                }
                let ghost o = order@.map_values(|x: usize| x as int);
                proof {
                    lemma_distinct_positions(o, n as int);
                    assert forall|k: int| 0 <= k < base.len() implies #[trigger] greedy_step(dep, n as int, o, k) by {
                        assert(o.take(k) =~= base.take(k));
                        assert(o[k] == base[k]);
                        assert(greedy_step(dep, n as int, base, k));
                    }
                    assert(o.take(base.len() as int) =~= base);
                    assert(base.take(base.len() as int) =~= base);
                    assert(greedy_prefix(dep, n as int, o, base.len() as int));
                }
                break;
            },
        }
    }
    order
}


/// The units behind a list of references.
pub open spec fn units(v: Seq<&Unit>) -> Seq<Unit> {
    v.map_values(|u: &Unit| *u)
}

/// Sort keys as integer pairs.
pub open spec fn key_seq(keys: Seq<(usize, u32)>) -> Seq<(int, int)> {
    keys.map_values(|p: (usize, u32)| (p.0 as int, p.1 as int))
}

proof fn lemma_take_contains<A>(s: Seq<A>, q: int, x: A)
    requires
        0 <= q < s.len(),
    ensures
        s.take(q + 1).contains(x) <==> (s.take(q).contains(x) || s[q] == x),
{
    if s.take(q + 1).contains(x) {
        let k = choose|k: int| 0 <= k < q + 1 && #[trigger] s.take(q + 1)[k] == x;
        if k < q {
            assert(s.take(q)[k] == x);
        }
    }
    if s.take(q).contains(x) {
        let k = choose|k: int| 0 <= k < q && #[trigger] s.take(q)[k] == x;
        assert(s.take(q + 1)[k] == x);
    }
    if s[q] == x {
        assert(s.take(q + 1)[q] == x);
    }
}

/// The annotations of `units` tagged with `unit_id`, keeping their order.
fn tagged_with<'a>(all: &Vec<&'a Unit>, unit_id: &str) -> (r: Vec<&'a Unit>)
    ensures
        units(r@) == pool_of(units(all@), unit_id@),
{
    let mut r: Vec<&Unit> = Vec::new();
    let mut i: usize = 0;
    while i < all.len()
        invariant
            i <= all@.len(),
            units(r@) == pool_of(units(all@).take(i as int), unit_id@),
        decreases all@.len() - i,
    {
        let u = all[i];
        let tagged = match &u.annotation.course_unit {
            Some(c) => str_eq(c.as_str(), unit_id),
            None => false,
        };
        let ghost before = units(r@);
        proof {
            let s = units(all@).take(i + 1);
            assert(s.last() == *u);
            assert(s.drop_last() =~= units(all@).take(i as int));
        }
        if tagged {
            r.push(u);
            assert(units(r@) =~= before.push(*u));
        }
        i += 1;
    }
    assert(units(all@).take(i as int) =~= units(all@));
    r
}

/// Insertion sort of positions `0..keys.len()` by key; among equal keys the
/// earlier position stays first.
pub(crate) fn stable_order(keys: &Vec<(usize, u32)>) -> (sp: Vec<usize>)
    ensures
        stable_sorted(positions(sp@), key_seq(keys@)),
{
    let ghost ks = key_seq(keys@);
    let mut sp: Vec<usize> = Vec::new();
    let mut i: usize = 0;
    while i < keys.len()
        invariant
            i <= keys@.len(),
            ks == key_seq(keys@),
            sp@.len() == i,
            forall|x: int| 0 <= x < i ==> #[trigger] sp@[x] < i,
            forall|v: int| 0 <= v < i ==> #[trigger] positions(sp@).contains(v),
            forall|x: int, y: int| 0 <= x < y < i ==> idx_lt(ks, #[trigger] sp@[x] as int, #[trigger] sp@[y] as int),
        decreases keys@.len() - i,
    {
        let ki = keys[i];
        let mut p: usize = 0;
        while p < sp.len()
            invariant
                p <= sp@.len(),
                sp@.len() == i,
                i < keys@.len(),
                ki == keys@[i as int],
                ks == key_seq(keys@),
                forall|x: int| 0 <= x < i ==> #[trigger] sp@[x] < i,
                forall|x: int| 0 <= x < p ==> !key_lt(ks[i as int], ks[#[trigger] sp@[x] as int]),
            ensures
                p <= sp@.len(),
                forall|x: int| 0 <= x < p ==> !key_lt(ks[i as int], ks[#[trigger] sp@[x] as int]),
                p < sp@.len() ==> key_lt(ks[i as int], ks[sp@[p as int] as int]),
            decreases sp@.len() - p,
        {
            let kp = keys[sp[p]];
            if ki.0 < kp.0 || (ki.0 == kp.0 && ki.1 < kp.1) {
                break;
            }
            p += 1;
        }
        let ghost old_sp = sp@;
        assert(p < old_sp.len() ==> key_lt(ks[i as int], ks[old_sp[p as int] as int]));
        sp.insert(p, i);
        assert(sp@ =~= old_sp.insert(p as int, i));
        assert forall|x: int, y: int| 0 <= x < y < i + 1 implies idx_lt(ks, #[trigger] sp@[x] as int, #[trigger] sp@[y] as int) by {
            if x < p && y < p {
                assert(sp@[x] == old_sp[x] && sp@[y] == old_sp[y]);
            } else if x < p && y == p {
                assert(!key_lt(ks[i as int], ks[old_sp[x] as int]));
            } else if x < p {
                assert(sp@[x] == old_sp[x] && sp@[y] == old_sp[y - 1]);
            } else if x == p {
                assert(sp@[y] == old_sp[y - 1]);
                if y - 1 > p {
                    assert(idx_lt(ks, old_sp[p as int] as int, old_sp[y - 1] as int));
                }
            } else {
                assert(sp@[x] == old_sp[x - 1] && sp@[y] == old_sp[y - 1]);
            }
        }
        assert forall|v: int| 0 <= v < i + 1 implies #[trigger] positions(sp@).contains(v) by {
            if v == i {
                assert(positions(sp@)[p as int] == v);
            } else {
                assert(positions(old_sp).contains(v));
                let x = choose|x: int| 0 <= x < old_sp.len() && positions(old_sp)[x] == v;
                if x < p {
                    assert(positions(sp@)[x] == v);
                } else {
                    assert(positions(sp@)[x + 1] == v);
                }
            }
        }
        i += 1;
    }
    sp
}

/// The last position in `pool` of an annotation with id `name`.
fn last_index_of(pool: &Vec<&Unit>, name: &str) -> (r: Option<usize>)
    ensures
        r matches Some(j) ==> last_of_id(units(pool@), name@, j as int),
        r is None ==> forall|m: int| 0 <= m < pool@.len() ==> (#[trigger] units(pool@)[m]).annotation.id@ != name@,
{
    let mut j: usize = pool.len();
    while j > 0
        invariant
            j <= pool@.len(),
            forall|m: int| j <= m < pool@.len() ==> (#[trigger] units(pool@)[m]).annotation.id@ != name@,
        decreases j,
    {
        if str_eq(pool[j - 1].annotation.id.as_str(), name) {
            return Some(j - 1);
        }
        j -= 1;
    }
    None
}

proof fn lemma_last_unique(pool: Seq<Unit>, name: Seq<char>, a: int, b: int)
    requires
        last_of_id(pool, name, a),
        last_of_id(pool, name, b),
    ensures
        a == b,
{
    if a < b {
        assert(pool[b].annotation.id@ == name);
    } else if b < a {
        assert(pool[a].annotation.id@ == name);
    }
}

/// For each annotation of `pool`, the positions of the annotations it leans on.
fn dependencies(pool: &Vec<&Unit>) -> (pending: Vec<Vec<usize>>)
    ensures
        pending@.len() == pool@.len(),
        forall|i: int, x: int|
            0 <= i < pending@.len() && 0 <= x < pending@[i]@.len() ==> #[trigger] pending@[i]@[x]
                < pending@.len(),
        forall|i: int, j: int|
            0 <= i < pool@.len() && 0 <= j < pool@.len() ==> (#[trigger] pending@[i]@.contains(j as usize)
                <==> is_dep(units(pool@), i, j)),
{
    let n = pool.len();
    let ghost us = units(pool@);
    let mut pending: Vec<Vec<usize>> = Vec::new();
    while pending.len() < n
        invariant
            pending@.len() <= n,
            n == pool@.len(),
            us == units(pool@),
            forall|i: int, x: int|
                0 <= i < pending@.len() && 0 <= x < pending@[i]@.len() ==> #[trigger] pending@[i]@[x]
                    < n,
            forall|i: int, j: int|
                0 <= i < pending@.len() && 0 <= j < n ==> (#[trigger] pending@[i]@.contains(j as usize)
                    <==> is_dep(us, i, j)),
        decreases n - pending@.len(),
    {
        let k = pending.len();
        let u = pool[k];
        let ghost names = dep_names(*u);
        assert(*u == us[k as int]);
        let mut d: Vec<usize> = Vec::new();
        let mut q: usize = 0;
        while q < u.annotation.prereqs.len()
            invariant
                q <= u.annotation.prereqs@.len(),
                n == pool@.len(),
                us == units(pool@),
                names == dep_names(*u),
                forall|x: int| 0 <= x < d@.len() ==> #[trigger] d@[x] < n,
                forall|j: int| 0 <= j < n ==> (#[trigger] d@.contains(j as usize) <==> (last_of_id(us, us[j].annotation.id@, j) && names.take(q as int).contains(us[j].annotation.id@))),
            decreases u.annotation.prereqs@.len() - q,
        {
            let nm = u.annotation.prereqs[q].as_str();
            assert(names[q as int] == nm@);
            let found = last_index_of(pool, nm);
            let ghost d0 = d@;
            if let Some(j0) = found {
                d.push(j0);
            }
            assert forall|j: int| 0 <= j < n implies (#[trigger] d@.contains(j as usize) <==> (last_of_id(us, us[j].annotation.id@, j) && names.take(q + 1).contains(us[j].annotation.id@))) by {
                lemma_take_contains(names, q as int, us[j].annotation.id@);
                if let Some(j0) = found {
                    assert(d@ == d0.push(j0));
                    if d@.contains(j as usize) && !d0.contains(j as usize) {
                        let x = choose|x: int| 0 <= x < d@.len() && d@[x] == j as usize;
                        assert(x == d0.len());
                    }
                    if d0.contains(j as usize) {
                        let x = choose|x: int| 0 <= x < d0.len() && d0[x] == j as usize;
                        assert(d@[x] == j as usize);
                    }
                    if j == j0 {
                        assert(d@[d0.len() as int] == j as usize);
                    }
                    if last_of_id(us, us[j].annotation.id@, j) && us[j].annotation.id@ == nm@ {
                        lemma_last_unique(us, nm@, j, j0 as int);
                    }
                } else {
                    assert(d@ == d0);
                    assert(us[j].annotation.id@ != nm@);
                }
            }
            q += 1;
        }
        let plen = q;
        assert(names.take(plen as int) =~= u.annotation.prereqs@.map_values(|s: String| s@));
        if let Some(m) = &u.annotation.macro_def {
            let found = last_index_of(pool, m.as_str());
            assert(names[plen as int] == m@);
            let ghost d0 = d@;
            if let Some(j0) = found {
                d.push(j0);
            }
            assert(names.take(plen + 1) =~= names);
            assert forall|j: int| 0 <= j < n implies (#[trigger] d@.contains(j as usize) <==> (last_of_id(us, us[j].annotation.id@, j) && names.contains(us[j].annotation.id@))) by {
                lemma_take_contains(names, plen as int, us[j].annotation.id@);
                if let Some(j0) = found {
                    assert(d@ == d0.push(j0));
                    if d@.contains(j as usize) && !d0.contains(j as usize) {
                        let x = choose|x: int| 0 <= x < d@.len() && d@[x] == j as usize;
                        assert(x == d0.len());
                    }
                    if d0.contains(j as usize) {
                        let x = choose|x: int| 0 <= x < d0.len() && d0[x] == j as usize;
                        assert(d@[x] == j as usize);
                    }
                    if j == j0 {
                        assert(d@[d0.len() as int] == j as usize);
                    }
                    if last_of_id(us, us[j].annotation.id@, j) && us[j].annotation.id@ == m@ {
                        lemma_last_unique(us, m@, j, j0 as int);
                    }
                } else {
                    assert(d@ == d0);
                    assert(us[j].annotation.id@ != m@);
                }
            }
        } else {
            assert(names.take(plen as int) =~= names);
        }
        let ghost p0 = pending@;
        pending.push(d);
        assert forall|i: int, j: int|
            0 <= i < pending@.len() && 0 <= j < n implies (#[trigger] pending@[i]@.contains(j as usize)
                <==> is_dep(us, i, j)) by {
            if i < k {
                assert(pending@[i] == p0[i]);
            }
        }
    }
    pending
}

impl Store {
    /// Position of a file in `reading_order`; unlisted files rank last.
    ///
    /// An entry names a file bare (`src/ser/mod.rs`, meaning the first
    /// coverage source) or qualified (`serde_derive:src/ser.rs`); qualifying
    /// is what keeps a path that two sources share from matching twice.
    fn file_rank(&self, source: &String, file: &String) -> (r: usize)
        requires
            self.sources@.len() > 0,
        ensures
            r == rank_in(self.reading_order@, source@, file@, self.sources@[0].name@),
    {
        let mut qualified = String::from_str(source.as_str());
        qualified.append(":");
        qualified.append(file.as_str());
        proof {
            reveal_strlit(":");
        }
        assert(qualified@ == source@ + seq![':'] + file@);
        let bare = str_eq(source.as_str(), self.first().name.as_str());
        let mut i: usize = 0;
        while i < self.reading_order.len()
            invariant
                i <= self.reading_order@.len(),
                self.sources@.len() > 0,
                qualified@ == source@ + seq![':'] + file@,
                bare == (source@ == self.sources@[0].name@),
                forall|k: int|
                    0 <= k < i ==> !rank_matches(
                        #[trigger] self.reading_order@[k]@,
                        source@,
                        file@,
                        self.sources@[0].name@,
                    ),
            decreases self.reading_order@.len() - i,
        {
            let f = self.reading_order[i].as_str();
            if str_eq(f, qualified.as_str()) || (bare && str_eq(f, file.as_str())) {
                proof {
                    lemma_rank_in(self.reading_order@, source@, file@, self.sources@[0].name@, i as int);
                }
                return i;
            }
            i += 1;
        }
        proof {
            lemma_rank_in(self.reading_order@, source@, file@, self.sources@[0].name@, i as int);
        }
        usize::MAX
    }

    /// Every annotation tagged with `unit_id`, in teaching order.
    ///
    /// The unit's annotations are first sorted by reading order, then line;
    /// then each step takes the earliest one whose prereqs and macro
    /// definition (within the unit) have all been taken. Should a cycle leave
    /// nothing ready, the rest follow in sorted order.
    pub fn course_annotations(&self, unit_id: &str) -> (r: Vec<&Unit>)
        ensures
            exists|sp: Seq<int>, ord: Seq<int>| course_result(*self, unit_id@, units(r@), sp, ord),
    {
        let all = self.all_units();
        let pool0 = tagged_with(&all, unit_id);
        let ghost us0 = units(pool0@);
        let ghost want = us0.map_values(|u: Unit| key_of(*self, u));
        if self.sources.len() == 0 {
            let r: Vec<&Unit> = Vec::new();
            proof {
                assert(store_units(self.sources@) =~= Seq::<Unit>::empty());
                assert(us0 =~= Seq::<Unit>::empty());
                let sp = Seq::<int>::empty();
                let ord = Seq::<int>::empty();
                let pool = sp.map_values(|x: int| us0[x]);
                assert(greedy_prefix(pool_deps(pool), 0, ord, 0));
                assert(units(r@) =~= ord.map_values(|x: int| pool[x]));
                assert(course_result(*self, unit_id@, units(r@), sp, ord));
            }
            return r;
        }
        let n = pool0.len();
        let mut keys: Vec<(usize, u32)> = Vec::new();
        while keys.len() < n
            invariant
                keys@.len() <= n,
                n == pool0@.len(),
                self.sources@.len() > 0,
                us0 == units(pool0@),
                want == us0.map_values(|u: Unit| key_of(*self, u)),
                key_seq(keys@) == want.take(keys@.len() as int),
            decreases n - keys@.len(),
        {
            let k = keys.len();
            let u = pool0[k];
            let rank = self.file_rank(&u.source, &u.annotation.file);
            let ghost before = keys@;
            keys.push((rank, u.range.start));
            assert(key_seq(keys@) =~= want.take(k + 1)) by {
                assert(keys@ == before.push((rank, u.range.start)));
                assert(us0[k as int] == *u);
            }
        }
        assert(want.take(n as int) =~= want);
        let sp = stable_order(&keys);
        let ghost spi = positions(sp@);
        let mut pool: Vec<&Unit> = Vec::new();
        let mut k: usize = 0;
        while k < n
            invariant
                k <= n,
                n == pool0@.len(),
                sp@.len() == n,
                spi == positions(sp@),
                forall|x: int| 0 <= x < spi.len() ==> 0 <= #[trigger] spi[x] < n,
                units(pool@) == spi.take(k as int).map_values(|x: int| units(pool0@)[x]),
            decreases n - k,
        {
            let ghost before = units(pool@);
            assert(0 <= spi[k as int] < n);
            pool.push(pool0[sp[k]]);
            assert(units(pool@) =~= spi.take(k + 1).map_values(|x: int| units(pool0@)[x])) by {
                assert(units(pool@) =~= before.push(*pool0@[sp@[k as int] as int]));
            }
            k += 1;
        }
        assert(spi.take(n as int) =~= spi);
        let pending = dependencies(&pool);
        let ord = teaching_sequence(&pending);
        let ghost ordi = positions(ord@);
        let ghost up = units(pool@);
        assert(list_deps(pending@) =~= pool_deps(up)) by {
            assert forall|i: int, j: int| #[trigger] list_deps(pending@)(i, j) == pool_deps(up)(i, j) by {
                if 0 <= i < n && 0 <= j < n {
                    assert(pending@[i]@.contains(j as usize) <==> is_dep(up, i, j));
                }
            }
        }
        let mut r: Vec<&Unit> = Vec::new();
        let mut k: usize = 0;
        while k < ord.len()
            invariant
                k <= ord@.len(),
                ord@.len() == n,
                pool@.len() == n,
                up == units(pool@),
                ordi == positions(ord@),
                forall|x: int| 0 <= x < ordi.len() ==> 0 <= #[trigger] ordi[x] < n,
                units(r@) == ordi.take(k as int).map_values(|x: int| up[x]),
            decreases ord@.len() - k,
        {
            let ghost before = units(r@);
            assert(0 <= ordi[k as int] < n);
            r.push(pool[ord[k]]);
            assert(units(r@) =~= ordi.take(k + 1).map_values(|x: int| up[x])) by {
                assert(units(r@) =~= before.push(*pool@[ord@[k as int] as int]));
            }
            k += 1;
        }
        assert(ordi.take(k as int) =~= ordi);
        assert(course_result(*self, unit_id@, units(r@), spi, ordi));
        r
    }
}

proof fn lemma_some_ready(
    dep: spec_fn(int, int) -> bool,
    n: int,
    taken: Seq<int>,
    rank: spec_fn(int) -> nat,
    i: int,
)
    requires
        0 <= i < n,
        !taken.contains(i),
        forall|a: int, b: int| #[trigger] dep(a, b) ==> 0 <= b < n && rank(b) < rank(a),
    ensures
        exists|x: int| #[trigger] ready(dep, n, taken, x),
    decreases rank(i),
{
    if !ready(dep, n, taken, i) {
        let j = choose|j: int| #[trigger] dep(i, j) && !taken.contains(j);
        lemma_some_ready(dep, n, taken, rank, j);
    }
}

/// Prereqs come first: when the dependencies within a unit admit a
/// numbering in which every annotation leans only on lower-numbered ones
/// (there is no cycle), the teaching order places every annotation after
/// all the annotations it leans on.
pub proof fn law_prereqs_come_first(pool: Seq<Unit>, ord: Seq<int>, rank: spec_fn(int) -> nat)
    requires
        teaching_order(pool_deps(pool), pool.len() as int, ord),
        forall|a: int, b: int| #[trigger] is_dep(pool, a, b) ==> rank(b) < rank(a),
    ensures
        forall|k: int, j: int|
            0 <= k < ord.len() && #[trigger] is_dep(pool, ord[k], j) ==> #[trigger] ord.take(k).contains(j),
{
    let dep = pool_deps(pool);
    let n = pool.len() as int;
    let k0 = choose|k0: int| #[trigger] greedy_prefix(dep, n, ord, k0);
    if k0 < ord.len() {
        assert forall|a: int, b: int| #[trigger] dep(a, b) implies 0 <= b < n && rank(b) < rank(a) by {
            assert(is_dep(pool, a, b));
        }
        if ord.take(k0).contains(ord[k0]) {
            let x = choose|x: int| 0 <= x < k0 && #[trigger] ord.take(k0)[x] == ord[k0];
            assert(ord[x] == ord[k0]);
        }
        lemma_some_ready(dep, n, ord.take(k0), rank, ord[k0]);
        let x = choose|x: int| #[trigger] ready(dep, n, ord.take(k0), x);
        assert(!ready(dep, n, ord.take(k0), x));
    }
    assert forall|k: int, j: int|
        0 <= k < ord.len() && #[trigger] is_dep(pool, ord[k], j) implies #[trigger] ord.take(k).contains(j) by {
        assert(greedy_step(dep, n, ord, k));
        assert(dep(ord[k], j));
    }
}

} // verus!
