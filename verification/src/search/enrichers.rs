//! The order in which enrichers add to the results of a search.

use vstd::prelude::*;

use crate::search::errors::SearchError;
use crate::search::traits::ResultEnricher;

pub mod positions;
pub mod snippet;
pub mod term_collector;

verus! {

/// An enricher as far as its place among others goes: what kind it is, and
/// the kinds that it depends on.
pub struct EnricherDeps {
    pub kind: u64,
    pub depends_on: Vec<u64>,
}

/// What the place of an enricher rests on.
pub struct Needs {
    pub kind: u64,
    pub depends_on: Seq<u64>,
}

/// What the places of enrichers rest on.
pub open spec fn all_needs(list: Seq<EnricherDeps>) -> Seq<Needs> {
    list.map_values(|d: EnricherDeps| Needs { kind: d.kind, depends_on: d.depends_on@ })
}

/// What the places of enrichers rest on.
pub open spec fn needs_of<E: ResultEnricher>(list: Seq<E>) -> Seq<Needs> {
    list.map_values(|e: E| Needs { kind: e.kind_of(), depends_on: e.needs() })
}

/// Whether enricher `i` depends on enricher `j`: it names the kind of `j`, which
/// is the first of its kind.
pub open spec fn depends(list: Seq<Needs>, i: int, j: int) -> bool {
    &&& list[i].depends_on.contains(list[j].kind)
    &&& forall|m: int| 0 <= m < j ==> (#[trigger] list[m]).kind != list[j].kind
}

/// Whether numbers rank every enricher behind those that it depends on.
pub open spec fn ranks(list: Seq<Needs>, rank: Seq<int>) -> bool {
    &&& rank.len() == list.len()
    &&& forall|i: int, j: int|
        0 <= i < list.len() && 0 <= j < list.len() && #[trigger] depends(list, i, j) ==> rank[j]
            < rank[i]
}

/// Whether the dependencies form no circle.
pub open spec fn acyclic(list: Seq<Needs>) -> bool {
    exists|rank: Seq<int>| ranks(list, rank)
}

/// Whether an order names every enricher once, each behind those that it
/// depends on.
pub open spec fn is_order(list: Seq<Needs>, order: Seq<usize>) -> bool {
    &&& order.len() == list.len()
    &&& order.no_duplicates()
    &&& forall|p: int| 0 <= p < order.len() ==> (#[trigger] order[p]) < list.len()
    &&& forall|p: int, q: int|
        0 <= p < order.len() && 0 <= q < order.len() && #[trigger] depends(
            list,
            order[p] as int,
            order[q] as int,
        ) ==> q < p
}

/// How many enrichers of an order have run once all are done that enricher `i`
/// depends on.
pub open spec fn ready_after(list: Seq<Needs>, order: Seq<usize>, i: int) -> nat
    decreases order.len(),
{
    if order.len() == 0 {
        0
    } else if depends(list, i, order.last() as int) {
        order.len()
    } else {
        ready_after(list, order.drop_last(), i)
    }
}

/// Whether enrichers come in the order in which they become ready, and those
/// that become ready together in the order in which they are given.
pub open spec fn in_turn(list: Seq<Needs>, order: Seq<usize>) -> bool {
    forall|p: int, q: int|
        0 <= p < q < order.len() ==> {
            let a = ready_after(list, order, (#[trigger] order[p]) as int);
            let b = ready_after(list, order, (#[trigger] order[q]) as int);
            a < b || (a == b && order[p] < order[q])
        }
}

// ---------------------------------------------------------------------------
// When an enricher is ready
// ---------------------------------------------------------------------------

/// Whether all that enricher `i` depends on are among others.
spec fn all_done(list: Seq<Needs>, done: Seq<usize>, i: int) -> bool {
    forall|j: int|
        0 <= j < list.len() && #[trigger] depends(list, i, j) ==> done.contains(j as usize)
}

proof fn lemma_ready_after(list: Seq<Needs>, order: Seq<usize>, i: int)
    ensures
        ready_after(list, order, i) <= order.len(),
        ready_after(list, order, i) > 0 ==> depends(
            list,
            i,
            order[ready_after(list, order, i) - 1] as int,
        ),
        forall|p: int|
            ready_after(list, order, i) <= p < order.len() ==> !depends(
                list,
                i,
                (#[trigger] order[p]) as int,
            ),
    decreases order.len(),
{
    if order.len() > 0 && !depends(list, i, order.last() as int) {
        let d = order.drop_last();
        lemma_ready_after(list, d, i);
        assert forall|p: int| ready_after(list, order, i) <= p < order.len() implies !depends(
            list,
            i,
            (#[trigger] order[p]) as int,
        ) by {
            if p < d.len() {
                assert(d[p] == order[p]);
            }
        }
    }
}

/// Once all that an enricher depends on are among the first `m`, it is ready.
proof fn lemma_ready(list: Seq<Needs>, order: Seq<usize>, i: int, m: int)
    requires
        0 <= m <= order.len(),
        order.no_duplicates(),
        forall|p: int| 0 <= p < order.len() ==> (#[trigger] order[p]) < list.len(),
        list.len() <= usize::MAX,
        all_done(list, order.take(m), i),
    ensures
        ready_after(list, order, i) <= m,
        forall|p: int| m <= p < order.len() ==> !depends(list, i, (#[trigger] order[p]) as int),
{
    lemma_ready_after(list, order, i);
    assert forall|p: int| m <= p < order.len() implies !depends(
        list,
        i,
        (#[trigger] order[p]) as int,
    ) by {
        if depends(list, i, order[p] as int) {
            let k = order.take(m).index_of(order[p]);
            assert(order.take(m)[k] == order[p]);
            assert(order[k] == order[p]);
        }
    }
}

/// As long as one that an enricher depends on is not among the first `m`, it is
/// not ready.
proof fn lemma_not_ready(list: Seq<Needs>, order: Seq<usize>, i: int, m: int)
    requires
        0 <= m <= order.len(),
        list.len() <= usize::MAX,
        all_done(list, order, i),
        !all_done(list, order.take(m), i),
    ensures
        m < ready_after(list, order, i),
{
    lemma_ready_after(list, order, i);
    let j = choose|j: int|
        0 <= j < list.len() && #[trigger] depends(list, i, j) && !order.take(m).contains(
            j as usize,
        );
    let p = order.index_of(j as usize);
    assert(order[p] == j);
    if p < m {
        assert(order.take(m)[p] == j);
    }
}

/// What runs behind an enricher does not matter for when it is ready.
proof fn lemma_ready_front(list: Seq<Needs>, order: Seq<usize>, i: int, m: int)
    requires
        0 <= m <= order.len(),
        forall|p: int| m <= p < order.len() ==> !depends(list, i, (#[trigger] order[p]) as int),
    ensures
        ready_after(list, order, i) == ready_after(list, order.take(m), i),
    decreases order.len(),
{
    if m == order.len() {
        assert(order.take(m) =~= order);
    } else {
        let d = order.drop_last();
        assert(order[order.len() - 1] == order.last());
        assert forall|p: int| m <= p < d.len() implies !depends(
            list,
            i,
            (#[trigger] d[p]) as int,
        ) by {
            assert(d[p] == order[p]);
        }
        lemma_ready_front(list, d, i, m);
        assert(d.take(m) =~= order.take(m));
    }
}

proof fn lemma_done_more(list: Seq<Needs>, some: Seq<usize>, more: Seq<usize>, i: int)
    requires
        all_done(list, some, i),
        forall|x: usize| some.contains(x) ==> more.contains(x),
    ensures
        all_done(list, more, i),
{
    assert forall|j: int| 0 <= j < list.len() && #[trigger] depends(list, i, j) implies more.contains(
    j as usize) by {
        assert(some.contains(j as usize));
    }
}

proof fn lemma_take_contains(s: Seq<usize>, m: int)
    requires
        0 <= m <= s.len(),
    ensures
        forall|x: usize| s.take(m).contains(x) ==> s.contains(x),
{
    assert forall|x: usize| s.take(m).contains(x) implies s.contains(x) by {
        let k = s.take(m).index_of(x);
        assert(s[k] == x);
    }
}

// ---------------------------------------------------------------------------
// Placing
// ---------------------------------------------------------------------------

/// Whether some enrichers are placed in turn: each behind all that it depends
/// on.
spec fn placed(list: Seq<Needs>, order: Seq<usize>) -> bool {
    &&& order.no_duplicates()
    &&& forall|p: int| 0 <= p < order.len() ==> (#[trigger] order[p]) < list.len()
    &&& forall|p: int| #![trigger order[p]]
        0 <= p < order.len() ==> all_done(list, order.take(p), order[p] as int)
    &&& in_turn(list, order)
}

/// Placing enricher `i`, which is ready after the first `m`, behind those that
/// are ready earlier and those before it in the list.
proof fn lemma_place(list: Seq<Needs>, order: Seq<usize>, i: usize, m: int)
    requires
        placed(list, order),
        list.len() <= usize::MAX,
        i < list.len(),
        !order.contains(i),
        0 <= m <= order.len(),
        all_done(list, order.take(m), i as int),
        m > 0 ==> !all_done(list, order.take(m - 1), i as int),
        forall|p: int| #![trigger order[p]]
            0 <= p < order.len() ==> {
                let k = ready_after(list, order, order[p] as int);
                k < m || (k == m && order[p] < i)
            },
    ensures
        placed(list, order.push(i)),
        ready_after(list, order.push(i), i as int) == m,
        forall|p: int| #![trigger order[p]]
            0 <= p < order.len() ==> ready_after(list, order.push(i), order[p] as int)
                == ready_after(list, order, order[p] as int),
{
    let more = order.push(i);
    let n = order.len() as int;
    lemma_take_contains(order, m);
    lemma_done_more(list, order.take(m), order, i as int);
    assert(more.take(n) =~= order);
    assert(more.take(m) =~= order.take(m));
    assert(more.no_duplicates()) by {
        assert forall|p: int, q: int| 0 <= p < q < more.len() implies more[p] != more[q] by {
            if q == n {
                assert(order.contains(order[p]));
            }
        }
    }
    assert forall|p: int| 0 <= p < more.len() implies (#[trigger] more[p]) < list.len() by {
        if p < n {
            assert(more[p] == order[p]);
        }
    }
    lemma_ready(list, more, i as int, m);
    if m > 0 {
        lemma_take_contains(more, n);
        lemma_done_more(list, order, more, i as int);
        assert(more.take(m - 1) =~= order.take(m - 1));
        lemma_not_ready(list, more, i as int, m - 1);
    }
    assert forall|p: int| #![trigger order[p]] 0 <= p < n implies ready_after(
        list,
        more,
        order[p] as int,
    ) == ready_after(list, order, order[p] as int) by {
        assert(more.take(p) =~= order.take(p));
        lemma_ready(list, more, order[p] as int, p);
        lemma_ready_front(list, more, order[p] as int, n);
    }
    assert forall|p: int| #![trigger more[p]] 0 <= p < more.len() implies all_done(
        list,
        more.take(p),
        more[p] as int,
    ) by {
        if p < n {
            assert(more[p] == order[p]);
            assert(more.take(p) =~= order.take(p));
        }
    }
    assert forall|p: int, q: int| 0 <= p < q < more.len() implies ({
        let a = ready_after(list, more, (#[trigger] more[p]) as int);
        let b = ready_after(list, more, (#[trigger] more[q]) as int);
        a < b || (a == b && more[p] < more[q])
    }) by {
        assert(more[p] == order[p]);
        if q < n {
            assert(more[q] == order[q]);
        }
    }
}

/// An order that names every enricher once holds each of them.
proof fn lemma_holds_all(order: Seq<usize>, n: nat)
    requires
        n <= usize::MAX,
        order.no_duplicates(),
        forall|p: int| 0 <= p < order.len() ==> (#[trigger] order[p]) < n,
    ensures
        order.len() <= n,
        order.len() == n <==> forall|i: int| 0 <= i < n ==> order.contains(#[trigger] (i as usize)),
{
    let ids = order.map_values(|x: usize| x as int);
    assert(ids.no_duplicates());
    ids.unique_seq_to_set();
    vstd::set_lib::lemma_int_range(0, n as int);
    let all = vstd::set_lib::set_int_range(0, n as int);
    assert(ids.to_set().subset_of(all)) by {
        assert forall|x: int| ids.to_set().contains(x) implies all.contains(x) by {
            let k = ids.index_of(x);
            assert(order[k] < n);
        }
    }
    vstd::set_lib::lemma_len_subset(ids.to_set(), all);
    if order.len() == n {
        vstd::set_lib::lemma_subset_equality(ids.to_set(), all);
        assert forall|i: int| 0 <= i < n implies order.contains(#[trigger] (i as usize)) by {
            assert(ids.to_set().contains(i));
            let k = ids.index_of(i);
            assert(order[k] == i as usize);
        }
    }
    if forall|i: int| 0 <= i < n ==> order.contains(#[trigger] (i as usize)) {
        assert(all.subset_of(ids.to_set())) by {
            assert forall|x: int| all.contains(x) implies ids.to_set().contains(x) by {
                assert(order.contains(x as usize));
                let k = order.index_of(x as usize);
                assert(ids[k] == x);
            }
        }
        assert(all =~= ids.to_set());
    }
}

/// The indices with a rank below `r`.
spec fn lower(rank: Seq<int>, r: int) -> Set<int> {
    Set::new(|i: int| 0 <= i < rank.len() && rank[i] < r)
}

proof fn lemma_lower(rank: Seq<int>, a: int, r: int)
    requires
        0 <= a < rank.len(),
        rank[a] < r,
    ensures
        lower(rank, rank[a]).len() < lower(rank, r).len(),
{
    let range = vstd::set_lib::set_int_range(0, rank.len() as int);
    vstd::set_lib::lemma_int_range(0, rank.len() as int);
    vstd::set_lib::lemma_len_subset(lower(rank, r), range);
    let small = lower(rank, rank[a]);
    let big = lower(rank, r);
    assert(small.insert(a).subset_of(big));
    assert(!small.contains(a));
    vstd::set_lib::lemma_len_subset(small, range);
    vstd::set_lib::lemma_len_subset(small.insert(a), big);
}

/// One that is not placed would depend on another of lower rank that is not
/// placed either, and so on for ever: where there is no circle, each is placed.
proof fn lemma_descend(list: Seq<Needs>, order: Seq<usize>, rank: Seq<int>, i: int)
    requires
        ranks(list, rank),
        forall|j: int| #![trigger all_done(list, order, j)]
            0 <= j < list.len() && all_done(list, order, j) ==> order.contains(j as usize),
        0 <= i < list.len(),
    ensures
        order.contains(i as usize),
    decreases lower(rank, rank[i]).len(),
{
    if !order.contains(i as usize) {
        assert(!all_done(list, order, i));
        let j = choose|j: int|
            0 <= j < list.len() && #[trigger] depends(list, i, j) && !order.contains(j as usize);
        lemma_lower(rank, j, rank[i]);
        lemma_descend(list, order, rank, j);
    }
}

/// Where all that are ready are placed, all are placed exactly where there is
/// no circle.
proof fn lemma_arranged(list: Seq<Needs>, order: Seq<usize>)
    requires
        list.len() <= usize::MAX,
        placed(list, order),
        forall|j: int| #![trigger all_done(list, order, j)]
            0 <= j < list.len() && all_done(list, order, j) ==> order.contains(j as usize),
    ensures
        order.len() == list.len() <==> acyclic(list),
        order.len() == list.len() ==> is_order(list, order),
{
    let n = list.len();
    lemma_holds_all(order, n);
    if order.len() == n {
        assert forall|p: int, q: int|
            0 <= p < order.len() && 0 <= q < order.len() && #[trigger] depends(
                list,
                order[p] as int,
                order[q] as int,
            ) implies q < p by {
            assert(order.take(p).contains(order[q]));
            let k = order.take(p).index_of(order[q]);
            assert(order[k] == order[q]);
        }
        let rank = Seq::new(n, |i: int| order.index_of(i as usize));
        assert forall|i: int, j: int|
            0 <= i < n && 0 <= j < n && #[trigger] depends(list, i, j) implies rank[j]
            < rank[i] by {
            assert(order.contains(i as usize) && order.contains(j as usize));
            assert(order[rank[i]] == i && order[rank[j]] == j);
            assert(depends(list, order[rank[i]] as int, order[rank[j]] as int));
        }
        assert(ranks(list, rank));
    } else if acyclic(list) {
        let rank = choose|rank: Seq<int>| ranks(list, rank);
        assert forall|i: int| 0 <= i < n implies order.contains(#[trigger] (i as usize)) by {
            lemma_descend(list, order, rank, i);
        }
    }
}

fn holds_kind(kinds: &Vec<u64>, kind: u64) -> (b: bool)
    ensures
        b == kinds@.contains(kind),
{
    let mut k: usize = 0;
    while k < kinds.len()
        invariant
            k <= kinds@.len(),
            forall|a: int| 0 <= a < k ==> kinds@[a] != kind,
        decreases kinds@.len() - k,
    {
        if kinds[k] == kind {
            assert(kinds@[k as int] == kind);
            return true;
        }
        k += 1;
    }
    false
}

fn is_dependent(list: &Vec<EnricherDeps>, i: usize, j: usize) -> (b: bool)
    requires
        i < list@.len(),
        j < list@.len(),
    ensures
        b == depends(all_needs(list@), i as int, j as int),
{
    let ghost g = all_needs(list@);
    let kind = list[j].kind;
    if !holds_kind(&list[i].depends_on, kind) {
        return false;
    }
    let mut m: usize = 0;
    while m < j
        invariant
            m <= j < list@.len(),
            g == all_needs(list@),
            kind == g[j as int].kind,
            forall|a: int| 0 <= a < m ==> (#[trigger] g[a]).kind != kind,
        decreases j - m,
    {
        assert(g[m as int].kind == list@[m as int].kind);
        if list[m].kind == kind {
            return false;
        }
        m += 1;
    }
    true
}

/// Whether `x` is among the first `m`.
fn is_among(order: &Vec<usize>, m: usize, x: usize) -> (b: bool)
    requires
        m <= order@.len(),
    ensures
        b == order@.take(m as int).contains(x),
{
    let mut k: usize = 0;
    while k < m
        invariant
            k <= m <= order@.len(),
            forall|a: int| 0 <= a < k ==> order@[a] != x,
        decreases m - k,
    {
        if order[k] == x {
            assert(order@.take(m as int)[k as int] == x);
            return true;
        }
        k += 1;
    }
    false
}

/// Whether all that enricher `i` depends on are among the first `m`.
fn is_ready(list: &Vec<EnricherDeps>, order: &Vec<usize>, m: usize, i: usize) -> (b: bool)
    requires
        m <= order@.len(),
        i < list@.len(),
    ensures
        b == all_done(all_needs(list@), order@.take(m as int), i as int),
{
    let ghost g = all_needs(list@);
    let mut j: usize = 0;
    while j < list.len()
        invariant
            j <= list@.len(),
            m <= order@.len(),
            i < list@.len(),
            g == all_needs(list@),
            forall|a: int|
                0 <= a < j && #[trigger] depends(g, i as int, a) ==> order@.take(
                    m as int,
                ).contains(a as usize),
        decreases list@.len() - j,
    {
        if is_dependent(list, i, j) && !is_among(order, m, j) {
            return false;
        }
        j += 1;
    }
    true
}

/// Orders enrichers: each behind those that it depends on, otherwise as they
/// become ready. `None` where the dependencies form a circle.
pub fn arrange(list: &Vec<EnricherDeps>) -> (r: Option<Vec<usize>>)
    ensures
        r is Some <==> acyclic(all_needs(list@)),
        r matches Some(order) ==> is_order(all_needs(list@), order@) && in_turn(
            all_needs(list@),
            order@,
        ),
{
    let n = list.len();
    let ghost g = all_needs(list@);
    let mut order: Vec<usize> = Vec::new();
    let mut m: usize = 0;
    loop
        invariant_except_break
            n == list@.len() == g.len(),
            g == all_needs(list@),
            m <= order@.len() <= n,
            placed(g, order@),
            forall|p: int| #![trigger order@[p]]
                0 <= p < order@.len() ==> ready_after(g, order@, order@[p] as int) < m || m == 0,
            m == 0 ==> order@.len() == 0,
            m > 0 ==> forall|j: int| #![trigger all_done(g, order@.take(m - 1), j)]
                0 <= j < n && all_done(g, order@.take(m - 1), j) ==> order@.contains(j as usize),
        ensures
            n == list@.len() == g.len(),
            g == all_needs(list@),
            placed(g, order@),
            forall|j: int| #![trigger all_done(g, order@, j)]
                0 <= j < n && all_done(g, order@, j) ==> order@.contains(j as usize),
        decreases n - m,
    {
        let ghost front = order@.take(m as int);
        let mut i: usize = 0;
        while i < n
            invariant
                n == list@.len() == g.len(),
                g == all_needs(list@),
                i <= n,
                m <= order@.len() <= n,
                placed(g, order@),
                front == order@.take(m as int),
                forall|p: int| #![trigger order@[p]]
                    0 <= p < order@.len() ==> {
                        let k = ready_after(g, order@, order@[p] as int);
                        k < m || (k == m && order@[p] < i)
                    },
                forall|j: int| #![trigger all_done(g, front, j)]
                    0 <= j < i && all_done(g, front, j) ==> order@.contains(j as usize),
                m > 0 ==> forall|j: int| #![trigger all_done(g, order@.take(m - 1), j)]
                    0 <= j < n && all_done(g, order@.take(m - 1), j) ==> order@.contains(
                        j as usize,
                    ),
            decreases n - i,
        {
            let ghost before = order@;
            let len = order.len();
            assert(before.take(len as int) =~= before);
            if !is_among(&order, len, i) && is_ready(list, &order, m, i) {
                proof {
                    lemma_place(g, before, i, m as int);
                    lemma_holds_all(before.push(i), n as nat);
                }
                order.push(i);
                proof {
                    assert(order@.take(m as int) =~= front);
                    if m > 0 {
                        assert(order@.take(m - 1) =~= before.take(m - 1));
                    }
                    assert forall|x: usize| before.contains(x) implies order@.contains(x) by {
                        let k = before.index_of(x);
                        assert(order@[k] == x);
                    }
                    assert(order@[before.len() as int] == i);
                    assert forall|p: int| #![trigger order@[p]] 0 <= p < order@.len() implies ({
                        let k = ready_after(g, order@, order@[p] as int);
                        k < m || (k == m && order@[p] < i + 1)
                    }) by {
                        if p < before.len() {
                            assert(order@[p] == before[p]);
                        }
                    }
                }
            }
            i += 1;
        }
        if m == order.len() {
            assert(order@.take(m as int) =~= order@);
            break;
        }
        m += 1;
    }
    proof {
        lemma_arranged(g, order@);
    }
    if order.len() == n {
        Some(order)
    } else {
        None
    }
}

// ---------------------------------------------------------------------------
// The coordinator
// ---------------------------------------------------------------------------

/// The enrichers of a search and the order in which they run.
pub struct EnricherCoordinator<E> {
    pub enrichers: Vec<E>,
    pub execution_order: Vec<usize>,
}

impl<E: ResultEnricher> EnricherCoordinator<E> {
    /// Whether every enricher runs once, behind those that it depends on.
    pub open spec fn wf(self) -> bool {
        is_order(needs_of(self.enrichers@), self.execution_order@)
    }

    /// Orders enrichers: each behind those that it depends on, otherwise as
    /// they become ready. Kinds that none of them has do not count. A circle is
    /// an error.
    pub fn new(enrichers: Vec<E>) -> (r: Result<EnricherCoordinator<E>, SearchError>)
        ensures
            r is Ok <==> acyclic(needs_of(enrichers@)),
            r matches Ok(c) ==> {
                &&& c.enrichers == enrichers
                &&& c.wf()
                &&& in_turn(needs_of(enrichers@), c.execution_order@)
            },
            r matches Err(e) ==> (e matches SearchError::EnricherError(m) && m@
                == "Circular dependency detected in enrichers"@),
    {
        let mut list: Vec<EnricherDeps> = Vec::new();
        let mut i: usize = 0;
        while i < enrichers.len()
            invariant
                i <= enrichers@.len(),
                list@.len() == i,
                forall|k: int| #![trigger list@[k]]
                    0 <= k < i ==> list@[k].kind == enrichers@[k].kind_of()
                        && list@[k].depends_on@ == enrichers@[k].needs(),
            decreases enrichers@.len() - i,
        {
            let e = &enrichers[i];
            list.push(EnricherDeps { kind: e.type_id(), depends_on: e.depends_on() });
            i += 1;
        }
        assert(all_needs(list@) =~= needs_of(enrichers@));
        match arrange(&list) {
            Some(execution_order) => Ok(EnricherCoordinator { enrichers, execution_order }),
            None => Err(
                SearchError::EnricherError("Circular dependency detected in enrichers".to_owned()),
            ),
        }
    }
}

// ---------------------------------------------------------------------------
// Laws
// ---------------------------------------------------------------------------

/// There is no more than one order of enrichers in turn.
pub proof fn law_one_order(list: Seq<Needs>, a: Seq<usize>, b: Seq<usize>)
    requires
        list.len() <= usize::MAX,
        is_order(list, a),
        in_turn(list, a),
        is_order(list, b),
        in_turn(list, b),
    ensures
        a == b,
{
    lemma_same_front(list, a, b, a.len() as int);
    assert(a.take(a.len() as int) =~= a);
    assert(b.take(b.len() as int) =~= b);
}

/// All that an enricher depends on run before it.
proof fn lemma_done_before(list: Seq<Needs>, order: Seq<usize>, p: int)
    requires
        list.len() <= usize::MAX,
        is_order(list, order),
        0 <= p < order.len(),
    ensures
        all_done(list, order.take(p), order[p] as int),
{
    lemma_holds_all(order, list.len());
    assert forall|j: int|
        0 <= j < list.len() && #[trigger] depends(
            list,
            order[p] as int,
            j,
        ) implies order.take(p).contains(j as usize) by {
        assert(order.contains(j as usize));
        let q = order.index_of(j as usize);
        assert(order[q] == j);
        assert(depends(list, order[p] as int, order[q] as int));
        assert(order.take(p)[q] == j as usize);
    }
}

/// Two orders in turn that begin alike go on alike.
proof fn lemma_same_next(list: Seq<Needs>, a: Seq<usize>, b: Seq<usize>, m: int)
    requires
        list.len() <= usize::MAX,
        is_order(list, a),
        in_turn(list, a),
        is_order(list, b),
        in_turn(list, b),
        0 <= m < a.len(),
        a.take(m) == b.take(m),
    ensures
        a[m] == b[m],
{
    let x = a[m];
    let y = b[m];
    lemma_holds_all(a, list.len());
    lemma_holds_all(b, list.len());
    lemma_done_before(list, a, m);
    lemma_done_before(list, b, m);
    lemma_ready(list, a, x as int, m);
    lemma_ready(list, a, y as int, m);
    lemma_ready(list, b, x as int, m);
    lemma_ready(list, b, y as int, m);
    lemma_ready_front(list, a, x as int, m);
    lemma_ready_front(list, a, y as int, m);
    lemma_ready_front(list, b, x as int, m);
    lemma_ready_front(list, b, y as int, m);
    assert(a.contains((y as int) as usize));
    assert(b.contains((x as int) as usize));
    let q = a.index_of(y);
    let r = b.index_of(x);
    assert(a[q] == y && b[r] == x);
    assert(0 <= q < a.len() && 0 <= r < b.len());
    if q < m {
        assert(a.take(m)[q] == a[q]);
        assert(b.take(m)[q] == b[q]);
        assert(b[q] == b[m]);
    }
    if r < m {
        assert(a.take(m)[r] == a[r]);
        assert(b.take(m)[r] == b[r]);
        assert(a[r] == a[m]);
    }
}

proof fn lemma_same_front(list: Seq<Needs>, a: Seq<usize>, b: Seq<usize>, m: int)
    requires
        list.len() <= usize::MAX,
        is_order(list, a),
        in_turn(list, a),
        is_order(list, b),
        in_turn(list, b),
        0 <= m <= a.len(),
    ensures
        a.take(m) == b.take(m),
    decreases m,
{
    if m > 0 {
        lemma_same_front(list, a, b, m - 1);
        lemma_same_next(list, a, b, m - 1);
        assert(a.take(m) =~= a.take(m - 1).push(a[m - 1]));
        assert(b.take(m) =~= b.take(m - 1).push(b[m - 1]));
    } else {
        assert(a.take(m) =~= b.take(m));
    }
}

/// Enrichers of which none depends on another run in the order in which they
/// are given.
pub proof fn law_independent_order(list: Seq<Needs>, order: Seq<usize>)
    requires
        is_order(list, order),
        in_turn(list, order),
        forall|i: int, j: int|
            0 <= i < list.len() && 0 <= j < list.len() ==> !#[trigger] depends(list, i, j),
    ensures
        forall|i: int| 0 <= i < order.len() ==> #[trigger] order[i] == i as usize,
{
    assert forall|p: int, q: int| 0 <= p < q < order.len() implies (#[trigger] order[p]) < (
    #[trigger] order[q]) by {
        lemma_ready_after(list, order, order[p] as int);
        lemma_ready_after(list, order, order[q] as int);
    }
    assert forall|i: int| 0 <= i < order.len() implies #[trigger] order[i] == i as usize by {
        lemma_rising(order, i);
    }
}

/// Numbers below their count that rise are all those numbers.
proof fn lemma_rising(order: Seq<usize>, i: int)
    requires
        0 <= i < order.len(),
        forall|p: int| 0 <= p < order.len() ==> (#[trigger] order[p]) < order.len(),
        forall|p: int, q: int|
            0 <= p < q < order.len() ==> (#[trigger] order[p]) < (#[trigger] order[q]),
    ensures
        order[i] == i,
{
    lemma_not_below(order, i);
    lemma_not_above(order, i);
}

proof fn lemma_not_below(order: Seq<usize>, i: int)
    requires
        0 <= i < order.len(),
        forall|p: int, q: int|
            0 <= p < q < order.len() ==> (#[trigger] order[p]) < (#[trigger] order[q]),
    ensures
        i <= order[i],
    decreases i,
{
    if i > 0 {
        lemma_not_below(order, i - 1);
        assert(order[i - 1] < order[i]);
    }
}

proof fn lemma_not_above(order: Seq<usize>, i: int)
    requires
        0 <= i < order.len(),
        forall|p: int| 0 <= p < order.len() ==> (#[trigger] order[p]) < order.len(),
        forall|p: int, q: int|
            0 <= p < q < order.len() ==> (#[trigger] order[p]) < (#[trigger] order[q]),
    ensures
        order[i] <= i,
    decreases order.len() - i,
{
    if i < order.len() - 1 {
        lemma_not_above(order, i + 1);
        assert(order[i] < order[i + 1]);
    }
}

} // verus!
