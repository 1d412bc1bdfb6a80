//! The prereq graph must be acyclic so the course track can be ordered. A
//! `macro_def` link is a dependency edge as much as a prereq is: the use
//! cannot be read before the def.
use crate::coverage::{copy_text, flat_anns, flat_view, flatten, lemma_push_contains, texts, SourceInput};
use crate::plan::{distinct, index_in, lemma_index_bound};
use crate::refs::{last_with_id, lemma_last_with_id};
use crate::schema::Annotation;
use crate::text::{lex_less, lex_lt, lemma_lex_irreflexive, lemma_lex_total, lemma_lex_transitive, str_eq};
use vstd::prelude::*;

verus! {

pub open spec fn opt_name(o: Option<String>) -> Seq<Seq<char>> {
    match o {
        Some(s) => seq![s@],
        None => Seq::empty(),
    }
}

/// What `x` depends on: the prereqs and macro-def of the annotation an id
/// map holds for it, or nothing when no annotation has that id.
pub open spec fn succs(flat: Seq<(int, Annotation)>, x: Seq<char>) -> Seq<Seq<char>> {
    let i = last_with_id(flat, x);
    if i >= 0 {
        texts(flat[i].1.prereqs@) + opt_name(flat[i].1.macro_def)
    } else {
        Seq::empty()
    }
}

/// `x` depends on `y`.
pub open spec fn edge(flat: Seq<(int, Annotation)>, x: Seq<char>, y: Seq<char>) -> bool {
    succs(flat, x).contains(y)
}

/// Position `k` of walk `c` steps along an edge.
pub open spec fn step_ok(flat: Seq<(int, Annotation)>, c: Seq<Seq<char>>, k: int) -> bool {
    edge(flat, c[k], c[k + 1])
}

/// `c` walks along edges and comes back to where it started.
pub open spec fn is_cycle(flat: Seq<(int, Annotation)>, c: Seq<Seq<char>>) -> bool {
    &&& c.len() >= 2
    &&& c[0] == c.last()
    &&& forall|k: int| 0 <= k < c.len() - 1 ==> #[trigger] step_ok(flat, c, k)
}

/// Every name the graph mentions: each id, and each prereq and macro-def.
pub open spec fn names_in(flat: Seq<(int, Annotation)>) -> Seq<Seq<char>>
    decreases flat.len(),
{
    if flat.len() == 0 {
        Seq::empty()
    } else {
        names_in(flat.drop_last()) + seq![flat.last().1.id@] + texts(flat.last().1.prereqs@) + opt_name(flat.last().1.macro_def)
    }
}

proof fn lemma_names_in(flat: Seq<(int, Annotation)>, i: int)
    requires
        0 <= i < flat.len(),
    ensures
        names_in(flat).contains(flat[i].1.id@),
        forall|y: Seq<char>| (texts(flat[i].1.prereqs@) + opt_name(flat[i].1.macro_def)).contains(y) ==> names_in(flat).contains(y),
    decreases flat.len(),
{
    let d = flat.drop_last();
    let a = flat.last().1;
    let tail = seq![a.id@] + texts(a.prereqs@) + opt_name(a.macro_def);
    assert(names_in(flat) =~= names_in(d) + tail);
    if i < flat.len() - 1 {
        lemma_names_in(d, i);
        assert(flat[i] == d[i]);
        let x = flat[i].1.id@;
        let k = choose|k: int| 0 <= k < names_in(d).len() && names_in(d)[k] == x;
        assert(names_in(flat)[k] == x);
        assert forall|y: Seq<char>| (texts(flat[i].1.prereqs@) + opt_name(flat[i].1.macro_def)).contains(y) implies names_in(flat).contains(y) by {
            assert((texts(d[i].1.prereqs@) + opt_name(d[i].1.macro_def)).contains(y));
            assert(names_in(d).contains(y));
            let j = choose|j: int| 0 <= j < names_in(d).len() && names_in(d)[j] == y;
            assert(names_in(flat)[j] == y);
        }
    } else {
        assert(names_in(flat)[names_in(d).len() as int] == a.id@);
        assert forall|y: Seq<char>| (texts(flat[i].1.prereqs@) + opt_name(flat[i].1.macro_def)).contains(y) implies names_in(flat).contains(y) by {
            let s = texts(a.prereqs@) + opt_name(a.macro_def);
            let j = choose|j: int| 0 <= j < s.len() && s[j] == y;
            assert(names_in(flat)[names_in(d).len() + 1 + j] == y);
        }
    }
}

/// What the search has found so far. `ns` and `st` are the marks, name and
/// whether it is done; `stack` is the path being explored; `order` lists
/// the done names in the order they were finished.
pub open spec fn dfs_inv(
    flat: Seq<(int, Annotation)>,
    u: Set<Seq<char>>,
    ns: Seq<Seq<char>>,
    st: Seq<bool>,
    stack: Seq<Seq<char>>,
    order: Seq<Seq<char>>,
) -> bool {
    &&& ns.len() == st.len()
    &&& distinct(ns)
    &&& forall|i: int| 0 <= i < ns.len() ==> u.contains(#[trigger] ns[i])
    &&& forall|i: int| 0 <= i < ns.len() ==> (!st[i] <==> stack.contains(#[trigger] ns[i]))
    &&& forall|i: int| 0 <= i < ns.len() ==> (st[i] <==> order.contains(#[trigger] ns[i]))
    &&& forall|k: int| 0 <= k < stack.len() ==> ns.contains(#[trigger] stack[k])
    &&& forall|k: int| 0 <= k < order.len() ==> ns.contains(#[trigger] order[k])
    &&& forall|k: int| 0 <= k < stack.len() - 1 ==> #[trigger] step_ok(flat, stack, k)
    &&& forall|i: int, y: Seq<char>| 0 <= i < order.len() && #[trigger] edge(flat, order[i], y) ==> 0 <= index_in(order, y) < i
}

proof fn lemma_room(ns: Seq<Seq<char>>, u: Set<Seq<char>>, extra: Option<Seq<char>>)
    requires
        u.finite(),
        distinct(ns),
        forall|i: int| 0 <= i < ns.len() ==> u.contains(#[trigger] ns[i]),
        extra matches Some(x) ==> u.contains(x) && !ns.contains(x),
    ensures
        ns.len() <= u.len(),
        extra is Some ==> ns.len() < u.len(),
{
    let s = match extra {
        Some(x) => ns.push(x),
        None => ns,
    };
    assert(s.no_duplicates()) by {
        assert forall|i: int, j: int| 0 <= i < s.len() && 0 <= j < s.len() && i != j implies s[i] != s[j] by {
            if i < ns.len() && j < ns.len() {
                assert(s[i] == ns[i] && s[j] == ns[j]);
                if i < j {
                } else {
                }
            } else if i < ns.len() {
                assert(s[i] == ns[i]);
            } else {
                assert(s[j] == ns[j]);
            }
        }
    }
    s.unique_seq_to_set();
    assert(s.to_set().subset_of(u)) by {
        assert forall|y: Seq<char>| s.to_set().contains(y) implies u.contains(y) by {
            let k = choose|k: int| 0 <= k < s.len() && s[k] == y;
            if k < ns.len() {
                assert(s[k] == ns[k]);
            }
        }
    }
    vstd::set_lib::lemma_len_subset(s.to_set(), u);
}

fn mark_of(ns: &Vec<String>, x: &str) -> (r: Option<usize>)
    ensures
        match r {
            Some(i) => i < ns@.len() && texts(ns@)[i as int] == x@ && index_in(texts(ns@), x@) == i,
            None => !texts(ns@).contains(x@),
        },
{
    let ghost t = texts(ns@);
    let mut k: usize = ns.len();
    assert(t.take(k as int) =~= t);
    while k > 0
        invariant
            k <= ns@.len(),
            t == texts(ns@),
            index_in(t, x@) == index_in(t.take(k as int), x@),
        decreases k,
    {
        assert(t.take(k as int).drop_last() =~= t.take(k - 1));
        assert(t.take(k as int).last() == ns@[k - 1]@);
        if str_eq(ns[k - 1].as_str(), x) {
            return Some(k - 1);
        }
        k -= 1;
    }
    proof {
        lemma_index_bound(t, x@);
    }
    None
}

fn first_in_stack(stack: &Vec<String>, x: &str) -> (r: usize)
    requires
        texts(stack@).contains(x@),
    ensures
        r < stack@.len(),
        stack@[r as int]@ == x@,
{
    let mut k: usize = 0;
    while k < stack.len()
        invariant
            k <= stack@.len(),
            texts(stack@).contains(x@),
            forall|j: int| 0 <= j < k ==> stack@[j]@ != x@,
        decreases stack@.len() - k,
    {
        if str_eq(stack[k].as_str(), x) {
            return k;
        }
        k += 1;
    }
    proof {
        let j = choose|j: int| 0 <= j < texts(stack@).len() && texts(stack@)[j] == x@;
        assert(stack@[j]@ == x@);
    }
    0
}

fn copy_strings(v: &Vec<String>, from: usize) -> (r: Vec<String>)
    requires
        from <= v@.len(),
    ensures
        texts(r@) == texts(v@).skip(from as int),
{
    let mut r: Vec<String> = Vec::new();
    let mut k: usize = from;
    while k < v.len()
        invariant
            from <= k <= v@.len(),
            texts(r@) == texts(v@).subrange(from as int, k as int),
        decreases v@.len() - k,
    {
        let ghost r0 = texts(r@);
        r.push(copy_text(&v[k]));
        assert(texts(r@) =~= r0.push(v@[k as int]@));
        k += 1;
        assert(texts(r@) =~= texts(v@).subrange(from as int, k as int));
    }
    assert(texts(v@).subrange(from as int, k as int) =~= texts(v@).skip(from as int));
    r
}

/// Visits `id` along an edge from the top of `stack` (or from nowhere, when
/// the stack is empty). A name already done is done; one still open closes
/// a cycle, which is returned from its first place on the stack back to it.
fn visit(
    flat: &Vec<(usize, &Annotation)>,
    id: &String,
    ns: &mut Vec<String>,
    st: &mut Vec<bool>,
    stack: &mut Vec<String>,
    order: &mut Ghost<Seq<Seq<char>>>,
    u: Ghost<Set<Seq<char>>>,
) -> (r: Option<Vec<String>>)
    requires
        u@.finite(),
        u@.contains(id@),
        forall|y: Seq<char>| #[trigger] names_in(flat_view(flat@)).contains(y) ==> u@.contains(y),
        dfs_inv(flat_view(flat@), u@, texts(old(ns)@), old(st)@, texts(old(stack)@), old(order)@),
        old(stack)@.len() > 0 ==> edge(flat_view(flat@), old(stack)@.last()@, id@),
    ensures
        match r {
            Some(c) => is_cycle(flat_view(flat@), texts(c@)),
            None => {
                &&& dfs_inv(flat_view(flat@), u@, texts(final(ns)@), final(st)@, texts(final(stack)@), final(order)@)
                &&& texts(final(stack)@) == texts(old(stack)@)
                &&& final(order)@.len() >= old(order)@.len()
                &&& final(order)@.take(old(order)@.len() as int) == old(order)@
                &&& final(order)@.contains(id@)
                &&& final(ns)@.len() >= old(ns)@.len()
                &&& texts(final(ns)@).take(old(ns)@.len() as int) == texts(old(ns)@)
            },
        },
    decreases u@.len() - old(ns)@.len(),
{
    let ghost fv = flat_view(flat@);
    match mark_of(ns, id.as_str()) {
        Some(i) => {
            if st[i] {
                proof {
                    assert(texts(ns@)[i as int] == id@);
                    assert(order@.contains(id@));
                    assert(order@.take(order@.len() as int) =~= order@);
                    assert(texts(ns@).take(ns@.len() as int) =~= texts(ns@));
                }
                return None;
            } else {
                proof {
                    assert(texts(stack@).contains(texts(ns@)[i as int]));
                }
                let at = first_in_stack(stack, id.as_str());
                let mut c = copy_strings(stack, at);
                let ghost c0 = texts(c@);
                c.push(copy_text(id));
                proof {
                    let s = texts(stack@);
                    let cv = texts(c@);
                    assert(cv =~= c0.push(id@));
                    assert(cv[0] == id@);
                    assert forall|k: int| 0 <= k < cv.len() - 1 implies #[trigger] step_ok(fv, cv, k) by {
                        if k < cv.len() - 2 {
                            assert(step_ok(fv, s, at + k));
                            assert(cv[k] == s[at + k] && cv[k + 1] == s[at + k + 1]);
                        } else {
                            assert(cv[k] == s[s.len() - 1]);
                            assert(s[s.len() - 1] == stack@.last()@);
                        }
                    }
                }
                return Some(c);
            }
        },
        None => {},
    }
    proof {
        lemma_room(texts(ns@), u@, Some(id@));
    }
    let ghost ns0 = texts(ns@);
    let ghost st0 = st@;
    let ghost stack0 = texts(stack@);
    let ghost order0 = order@;
    let me = ns.len();
    ns.push(copy_text(id));
    st.push(false);
    stack.push(copy_text(id));
    proof {
        assert(texts(ns@) =~= ns0.push(id@));
        assert(texts(stack@) =~= stack0.push(id@));
        let nsv = texts(ns@);
        let sv = texts(stack@);
        assert forall|i: int| 0 <= i < nsv.len() implies (!st@[i] <==> sv.contains(#[trigger] nsv[i])) by {
            lemma_push_contains(stack0, id@, nsv[i]);
            if i < ns0.len() {
                assert(nsv[i] == ns0[i]);
                assert(nsv[i] != id@);
            }
        }
        assert forall|i: int| 0 <= i < nsv.len() implies (st@[i] <==> order@.contains(#[trigger] nsv[i])) by {
            if i < ns0.len() {
                assert(nsv[i] == ns0[i]);
            } else {
                if order@.contains(id@) {
                    let k = choose|k: int| 0 <= k < order@.len() && order@[k] == id@;
                    assert(ns0.contains(order@[k]));
                }
            }
        }
        assert forall|k: int| 0 <= k < sv.len() implies nsv.contains(#[trigger] sv[k]) by {
            if k < stack0.len() {
                assert(sv[k] == stack0[k]);
                assert(ns0.contains(stack0[k]));
                let j = choose|j: int| 0 <= j < ns0.len() && ns0[j] == stack0[k];
                assert(nsv[j] == ns0[j]);
            } else {
                assert(nsv[ns0.len() as int] == id@);
            }
        }
        assert forall|k: int| 0 <= k < order@.len() implies nsv.contains(#[trigger] order@[k]) by {
            assert(ns0.contains(order@[k]));
            let j = choose|j: int| 0 <= j < ns0.len() && ns0[j] == order@[k];
            assert(nsv[j] == ns0[j]);
        }
        assert forall|k: int| 0 <= k < sv.len() - 1 implies #[trigger] step_ok(fv, sv, k) by {
            if k < stack0.len() - 1 {
                assert(step_ok(fv, stack0, k));
            } else {
                assert(sv[k] == stack0.last());
            }
        }
        assert forall|i: int| 0 <= i < nsv.len() implies u@.contains(#[trigger] nsv[i]) by {
            if i < ns0.len() {
                assert(nsv[i] == ns0[i]);
            }
        }
        assert(distinct(nsv)) by {
            assert forall|i: int, j: int| 0 <= i < j < nsv.len() implies nsv[i] != nsv[j] by {
                if j < ns0.len() {
                    assert(nsv[i] == ns0[i] && nsv[j] == ns0[j]);
                } else {
                    assert(nsv[i] == ns0[i]);
                }
            }
        }
    }
    let mut deps: Vec<&String> = Vec::new();
    match crate::refs::last_index_of_id(flat, flat.len(), id.as_str()) {
        Some(j) => {
            let a = flat[j].1;
            let mut q: usize = 0;
            while q < a.prereqs.len()
                invariant
                    q <= a.prereqs@.len(),
                    deps@.len() == q,
                    forall|t: int| 0 <= t < q ==> *(#[trigger] deps@[t]) == a.prereqs@[t],
                decreases a.prereqs@.len() - q,
            {
                deps.push(&a.prereqs[q]);
                q += 1;
            }
            match &a.macro_def {
                Some(m) => {
                    deps.push(m);
                },
                None => {},
            }
            proof {
                assert(fv.take(flat@.len() as int) =~= fv);
                assert(fv[j as int].1 == *a);
                let dv = deps@.map_values(|s: &String| s@);
                assert(dv =~= succs(fv, id@));
            }
        },
        None => {
            proof {
                assert(fv.take(flat@.len() as int) =~= fv);
                assert(succs(fv, id@) =~= Seq::<Seq<char>>::empty());
            }
        },
    }
    let ghost dv = deps@.map_values(|s: &String| s@);
    assert(dv == succs(fv, id@));
    let mut d: usize = 0;
    while d < deps.len()
        invariant
            d <= deps@.len(),
            dv == deps@.map_values(|s: &String| s@),
            dv == succs(fv, id@),
            fv == flat_view(flat@),
            u@.finite(),
            forall|y: Seq<char>| #[trigger] names_in(flat_view(flat@)).contains(y) ==> u@.contains(y),
            dfs_inv(fv, u@, texts(ns@), st@, texts(stack@), order@),
            texts(stack@) == stack0.push(id@),
            me == ns0.len(),
            ns0.len() < ns@.len(),
            texts(ns@)[me as int] == id@,
            order@.len() >= order0.len(),
            order@.take(order0.len() as int) == order0,
            ns0.len() < u@.len(),
            old(ns)@.len() == ns0.len(),
            texts(ns@).take(ns0.len() as int) == ns0,
            forall|t: int| 0 <= t < d ==> order@.contains(#[trigger] dv[t]),
        decreases deps@.len() - d,
    {
        let p = deps[d];
        proof {
            assert(dv[d as int] == p@);
            assert(edge(fv, id@, p@));
            lemma_last_with_id(fv, id@);
            let i = last_with_id(fv, id@);
            lemma_names_in(fv, i);
            assert((texts(fv[i].1.prereqs@) + opt_name(fv[i].1.macro_def)).contains(p@));
            assert(names_in(fv).contains(p@));
            assert(u@.contains(p@));
            lemma_room(texts(ns@), u@, None);
            assert(texts(stack@).last() == id@);
        }
        let ghost order1 = order@;
        let ghost ns1 = texts(ns@);
        match visit(flat, p, ns, st, stack, order, u) {
            Some(c) => {
                return Some(c);
            },
            None => {},
        }
        proof {
            assert(order@.take(order0.len() as int) =~= order1.take(order1.len() as int).take(order0.len() as int));
            assert forall|t: int| 0 <= t < d + 1 implies order@.contains(#[trigger] dv[t]) by {
                if t < d {
                    let k = choose|k: int| 0 <= k < order1.len() && order1[k] == dv[t];
                    assert(order@.take(order1.len() as int)[k] == order1[k]);
                }
            }
            assert(texts(stack@).contains(id@)) by {
                assert(texts(stack@)[stack0.len() as int] == id@);
            }
            let nsv = texts(ns@);
            assert(nsv[me as int] == nsv.take(ns1.len() as int)[me as int]);
            assert(nsv[me as int] == id@);
            assert(nsv.take(ns0.len() as int) =~= ns1.take(ns0.len() as int));
        }
        d += 1;
    }
    // Every dependency is done: `id` is finished.
    let ghost order2 = order@;
    let ghost ns2 = texts(ns@);
    let ghost st2 = st@;
    let ghost sb = texts(stack@);
    proof {
        assert(sb.contains(id@)) by {
            assert(sb[stack0.len() as int] == id@);
        }
        assert(ns2[me as int] == id@);
    }
    stack.pop();
    st.set(me, true);
    proof {
        order@ = order@.push(id@);
        let sv = texts(stack@);
        assert(sv =~= sb.drop_last());
        assert(sv =~= stack0);
        let nsv = texts(ns@);
        assert(nsv == ns2);
        // `id` was open, so it was not done yet.
        assert(!order2.contains(id@)) by {
            assert(!st2[me as int]);
        }
        assert forall|i: int| 0 <= i < nsv.len() implies (!st@[i] <==> sv.contains(#[trigger] nsv[i])) by {
            lemma_push_contains(stack0, id@, nsv[i]);
            if i != me {
                assert(nsv[i] != id@);
            } else {
                assert(nsv[i] == id@);
                // `id` was pushed fresh: it was not on the stack below.
                assert(!stack0.contains(id@)) by {
                    if stack0.contains(id@) {
                        let k = choose|k: int| 0 <= k < stack0.len() && stack0[k] == id@;
                        assert(ns0.contains(stack0[k]));
                    }
                }
            }
        }
        assert forall|i: int| 0 <= i < nsv.len() implies (st@[i] <==> order@.contains(#[trigger] nsv[i])) by {
            lemma_push_contains(order2, id@, nsv[i]);
            if i != me {
                assert(nsv[i] != id@);
            }
        }
        assert forall|k: int| 0 <= k < sv.len() implies nsv.contains(#[trigger] sv[k]) by {
            assert(sv[k] == stack0.push(id@)[k]);
        }
        assert forall|k: int| 0 <= k < order@.len() implies nsv.contains(#[trigger] order@[k]) by {
            if k < order2.len() {
                assert(order@[k] == order2[k]);
            } else {
                assert(nsv[me as int] == id@);
            }
        }
        assert forall|k: int| 0 <= k < sv.len() - 1 implies #[trigger] step_ok(fv, sv, k) by {
            assert(step_ok(fv, stack0.push(id@), k));
            assert(sv[k] == stack0.push(id@)[k] && sv[k + 1] == stack0.push(id@)[k + 1]);
        }
        assert forall|i: int, y: Seq<char>| 0 <= i < order@.len() && #[trigger] edge(fv, order@[i], y) implies 0 <= index_in(order@, y) < i by {
            if i < order2.len() {
                assert(order@[i] == order2[i]);
                assert(0 <= index_in(order2, y) < i);
                if y == id@ {
                    lemma_index_bound(order2, y);
                }
                assert(y != id@);
                assert(order@.drop_last() =~= order2);
            } else {
                assert(order@[i] == id@);
                assert(succs(fv, id@).contains(y));
                let t = choose|t: int| 0 <= t < dv.len() && dv[t] == y;
                assert(order2.contains(dv[t]));
                lemma_index_bound(order2, y);
                assert(y != id@);
                assert(order@.drop_last() =~= order2);
            }
        }
        assert(order@.take(order0.len() as int) =~= order2.take(order0.len() as int));
        assert(order@[order2.len() as int] == id@);
        assert(nsv.take(ns0.len() as int) =~= ns0);
    }
    None
}

/// Strictly ascending.
pub open spec fn ascending(v: Seq<Seq<char>>) -> bool {
    forall|i: int, j: int| 0 <= i < j < v.len() ==> lex_lt(v[i], v[j])
}

pub(crate) fn insert_sorted(v: &mut Vec<String>, s: &String)
    requires
        ascending(texts(old(v)@)),
    ensures
        ascending(texts(final(v)@)),
        forall|x: Seq<char>| texts(final(v)@).contains(x) <==> (texts(old(v)@).contains(x) || x == s@),
{
    let ghost t0 = texts(v@);
    let mut p: usize = 0;
    while p < v.len() && lex_less(v[p].as_str(), s.as_str())
        invariant
            p <= v@.len(),
            t0 == texts(v@),
            forall|i: int| 0 <= i < p ==> lex_lt(#[trigger] t0[i], s@),
        decreases v@.len() - p,
    {
        p += 1;
    }
    if p < v.len() && str_eq(v[p].as_str(), s.as_str()) {
        proof {
            assert forall|x: Seq<char>| texts(v@).contains(x) <==> (t0.contains(x) || x == s@) by {
                if x == s@ {
                    assert(t0[p as int] == x);
                }
            }
        }
        return;
    }
    proof {
        if p < v@.len() {
            lemma_lex_total(t0[p as int], s@);
        }
    }
    v.insert(p, copy_text(s));
    proof {
        let t = texts(v@);
        assert(t =~= t0.insert(p as int, s@));
        assert forall|i: int, j: int| 0 <= i < j < t.len() implies lex_lt(t[i], t[j]) by {
            if j < p {
                assert(t[i] == t0[i] && t[j] == t0[j]);
            } else if j == p {
                assert(t[i] == t0[i]);
            } else if i < p {
                assert(t[i] == t0[i] && t[j] == t0[j - 1]);
                assert(lex_lt(t0[i], s@));
                assert(lex_lt(s@, t0[p as int]));
                if j - 1 > p {
                    lemma_lex_transitive(s@, t0[p as int], t0[j - 1]);
                }
                lemma_lex_transitive(t0[i], s@, t0[j - 1]);
            } else if i == p {
                assert(t[j] == t0[j - 1]);
                if j - 1 > p {
                    lemma_lex_transitive(s@, t0[p as int], t0[j - 1]);
                }
            } else {
                assert(t[i] == t0[i - 1] && t[j] == t0[j - 1]);
            }
        }
        assert forall|x: Seq<char>| t.contains(x) <==> (t0.contains(x) || x == s@) by {
            if t.contains(x) {
                let k = choose|k: int| 0 <= k < t.len() && t[k] == x;
                if k < p {
                    assert(t0[k] == x);
                } else if k > p {
                    assert(t0[k - 1] == x);
                }
            }
            if t0.contains(x) {
                let k = choose|k: int| 0 <= k < t0.len() && t0[k] == x;
                if k < p {
                    assert(t[k] == x);
                } else {
                    assert(t[k + 1] == x);
                }
            }
            if x == s@ {
                assert(t[p as int] == x);
            }
        }
    }
}

/// The finish order's closure: whatever a finished name depends on was
/// finished before it.
pub open spec fn closed(flat: Seq<(int, Annotation)>, order: Seq<Seq<char>>) -> bool {
    forall|i: int, y: Seq<char>| 0 <= i < order.len() && #[trigger] edge(flat, order[i], y) ==> 0 <= index_in(order, y) < i
}

proof fn lemma_cycle_descends(flat: Seq<(int, Annotation)>, order: Seq<Seq<char>>, c: Seq<Seq<char>>, k: int)
    requires
        closed(flat, order),
        is_cycle(flat, c),
        order.contains(c[0]),
        1 <= k < c.len(),
    ensures
        0 <= index_in(order, c[k]) < index_in(order, c[0]),
    decreases k,
{
    lemma_index_bound(order, c[0]);
    if k == 1 {
        assert(step_ok(flat, c, 0));
        assert(order[index_in(order, c[0])] == c[0]);
    } else {
        lemma_cycle_descends(flat, order, c, k - 1);
        lemma_index_bound(order, c[k - 1]);
        assert(step_ok(flat, c, k - 1));
        assert(order[index_in(order, c[k - 1])] == c[k - 1]);
    }
}

/// A prereq cycle, if the graph has one. Ids are tried in ascending order,
/// each with a fresh path; the first cycle found is returned from its first
/// name back to it, and no answer means there is no cycle at all.
pub fn find_cycle(loaded: &Vec<SourceInput>) -> (r: Option<Vec<String>>)
    ensures
        match r {
            Some(c) => is_cycle(flat_anns(loaded@), texts(c@)),
            None => forall|c: Seq<Seq<char>>| !is_cycle(flat_anns(loaded@), c),
        },
{
    let flat = flatten(loaded);
    let ghost fv = flat_view(flat@);
    assert(fv == flat_anns(loaded@));
    let ghost u = names_in(fv).to_set();
    proof {
        vstd::seq_lib::seq_to_set_is_finite(names_in(fv));
    }
    let mut keys: Vec<String> = Vec::new();
    let mut i: usize = 0;
    while i < flat.len()
        invariant
            i <= flat@.len(),
            fv == flat_view(flat@),
            ascending(texts(keys@)),
            forall|k: int| 0 <= k < i ==> texts(keys@).contains(#[trigger] fv[k].1.id@),
            forall|x: Seq<char>| texts(keys@).contains(x) ==> names_in(fv).contains(x),
        decreases flat@.len() - i,
    {
        let ghost k0 = texts(keys@);
        insert_sorted(&mut keys, &flat[i].1.id);
        proof {
            assert(fv[i as int].1 == *flat@[i as int].1);
            lemma_names_in(fv, i as int);
        }
        i += 1;
    }
    let mut ns: Vec<String> = Vec::new();
    let mut st: Vec<bool> = Vec::new();
    let mut stack: Vec<String> = Vec::new();
    let mut order: Ghost<Seq<Seq<char>>> = Ghost(Seq::empty());
    let mut j: usize = 0;
    assert(texts(ns@) =~= Seq::<Seq<char>>::empty());
    assert(texts(stack@) =~= Seq::<Seq<char>>::empty());
    while j < keys.len()
        invariant
            j <= keys@.len(),
            fv == flat_view(flat@),
            fv == flat_anns(loaded@),
            u == names_in(fv).to_set(),
            u.finite(),
            forall|x: Seq<char>| texts(keys@).contains(x) ==> names_in(fv).contains(x),
            forall|k: int| 0 <= k < flat@.len() ==> texts(keys@).contains(#[trigger] fv[k].1.id@),
            dfs_inv(fv, u, texts(ns@), st@, texts(stack@), order@),
            texts(stack@).len() == 0,
            forall|t: int| 0 <= t < j ==> order@.contains(#[trigger] texts(keys@)[t]),
        decreases keys@.len() - j,
    {
        proof {
            assert(texts(keys@).contains(texts(keys@)[j as int]));
            assert(names_in(fv).contains(keys@[j as int]@));
            assert forall|y: Seq<char>| #[trigger] names_in(flat_view(flat@)).contains(y) implies u.contains(y) by {}
        }
        let ghost order1 = order@;
        match visit(&flat, &keys[j], &mut ns, &mut st, &mut stack, &mut order, Ghost(u)) {
            Some(c) => {
                return Some(c);
            },
            None => {},
        }
        proof {
            assert forall|t: int| 0 <= t < j + 1 implies order@.contains(#[trigger] texts(keys@)[t]) by {
                if t < j {
                    let k = choose|k: int| 0 <= k < order1.len() && order1[k] == texts(keys@)[t];
                    assert(order@.take(order1.len() as int)[k] == order1[k]);
                }
            }
        }
        j += 1;
    }
    proof {
        assert forall|c: Seq<Seq<char>>| !is_cycle(fv, c) by {
            if is_cycle(fv, c) {
                assert(step_ok(fv, c, 0));
                lemma_last_with_id(fv, c[0]);
                let i = last_with_id(fv, c[0]);
                assert(i >= 0);
                assert(texts(keys@).contains(fv[i].1.id@));
                let t = choose|t: int| 0 <= t < texts(keys@).len() && texts(keys@)[t] == c[0];
                assert(order@.contains(texts(keys@)[t]));
                lemma_cycle_descends(fv, order@, c, c.len() - 1);
            }
        }
    }
    None
}

/// The graph has no cycle.
pub open spec fn acyclic(flat: Seq<(int, Annotation)>) -> bool {
    forall|c: Seq<Seq<char>>| !is_cycle(flat, c)
}

/// The finding reports a real cycle of the graph.
pub open spec fn reports_cycle(flat: Seq<(int, Annotation)>, f: crate::coverage::FindingView) -> bool {
    match f {
        crate::coverage::FindingView::PrereqCycle(c) => is_cycle(flat, c),
        _ => false,
    }
}

/// Reports a prereq cycle, if the graph has one, as one error; an acyclic
/// graph leaves the findings as they were.
pub fn report_cycle(loaded: &Vec<SourceInput>, diag: &mut crate::coverage::Diagnostics)
    ensures
        acyclic(flat_anns(loaded@)) ==> final(diag).errors@ == old(diag).errors@,
        !acyclic(flat_anns(loaded@)) ==> final(diag).errors@.len() == old(diag).errors@.len() + 1
            && final(diag).errors@.take(old(diag).errors@.len() as int) == old(diag).errors@
            && reports_cycle(flat_anns(loaded@), crate::coverage::finding_view(final(diag).errors@.last())),
        final(diag).warnings@ == old(diag).warnings@,
{
    match find_cycle(loaded) {
        Some(c) => {
            let ghost e0 = diag.errors@;
            let ghost cv = texts(c@);
            diag.error(crate::coverage::Finding::PrereqCycle { cycle: c });
            assert(diag.errors@.take(e0.len() as int) =~= e0);
            assert(is_cycle(flat_anns(loaded@), cv));
            assert(!acyclic(flat_anns(loaded@)));
        },
        None => {},
    }
}

} // verus!
