//! The order in which fragments are applied.

use vstd::prelude::*;
use vstd::string::*;
use crate::error::{ErrorView, MigrateError};
use crate::fragment::{
    dependency_text, fragment_views, id_less, DependencyView, FragmentDependency, FragmentIdView,
    FragmentView, MigrationFragment,
};
use crate::text::{
    lemma_text_less_total, lemma_text_less_transitive, text_less, text_precedes, texts,
};

verus! {

/// Whether the declared dependency `dep` means the fragment at `t`: one with the
/// given identifier, or the last one with the given file name.
pub open spec fn names(fs: Seq<FragmentView>, dep: DependencyView, t: int) -> bool {
    match dep {
        DependencyView::Id(id) => fs[t].id == id,
        DependencyView::Filename(name) => {
            &&& fs[t].filename == name
            &&& forall|u: int| t < u < fs.len() ==> (#[trigger] fs[u]).filename != name
        },
    }
}

/// Whether the fragment at `t` is a prerequisite of another one at `i`.
pub open spec fn needs(fs: Seq<FragmentView>, i: int, t: int) -> bool {
    &&& 0 <= i < fs.len()
    &&& 0 <= t < fs.len()
    &&& t != i
    &&& exists|d: int|
        0 <= d < fs[i].dependencies.len() && names(fs, #[trigger] fs[i].dependencies[d], t)
}

/// The tiebreaker: by identifier, then by file name, then by position.
pub open spec fn key_less(fs: Seq<FragmentView>, i: int, j: int) -> bool {
    ||| id_less(fs[i].id, fs[j].id)
    ||| fs[i].id == fs[j].id && text_less(fs[i].filename, fs[j].filename)
    ||| fs[i].id == fs[j].id && fs[i].filename == fs[j].filename && i < j
}

/// Whether the fragment at `i` can follow those in `done`.
pub open spec fn is_ready(fs: Seq<FragmentView>, done: Seq<int>, i: int) -> bool {
    &&& 0 <= i < fs.len()
    &&& !done.contains(i)
    &&& forall|t: int| #[trigger] needs(fs, i, t) ==> done.contains(t)
}

/// Whether the fragment at `i` is the first by the tiebreaker that can follow `done`.
pub open spec fn is_next(fs: Seq<FragmentView>, done: Seq<int>, i: int) -> bool {
    &&& is_ready(fs, done, i)
    &&& forall|j: int| #[trigger] is_ready(fs, done, j) && j != i ==> key_less(fs, i, j)
}

/// `done`, continued for as long as some fragment can follow.
pub open spec fn order_from(fs: Seq<FragmentView>, done: Seq<int>) -> Seq<int>
    decreases fs.len() - done.len(),
{
    if done.len() < fs.len() && exists|i: int| is_next(fs, done, i) {
        order_from(fs, done.push(choose|i: int| is_next(fs, done, i)))
    } else {
        done
    }
}

/// The positions of the fragments in the order in which they are applied, as far
/// as they can be ordered.
pub open spec fn apply_order(fs: Seq<FragmentView>) -> Seq<int> {
    order_from(fs, seq![])
}

/// Whether every position in `s` has a prerequisite in `s`.
#[verifier::opaque]
pub open spec fn is_knot(fs: Seq<FragmentView>, s: Set<int>) -> bool {
    forall|i: int| #[trigger] s.contains(i) ==> exists|t: int| needs(fs, i, t) && s.contains(t)
}

/// Whether the fragment at `i` waits, directly or not, for a circle of fragments.
#[verifier::opaque]
pub open spec fn is_stuck(fs: Seq<FragmentView>, i: int) -> bool {
    exists|s: Set<int>| #[trigger] s.contains(i) && is_knot(fs, s)
}

/// Whether no fragments wait for each other.
pub open spec fn is_acyclic(fs: Seq<FragmentView>) -> bool {
    forall|i: int| 0 <= i < fs.len() ==> !is_stuck(fs, i)
}

/// The file names of the fragments below position `n` that are stuck.
pub open spec fn stuck_names(fs: Seq<FragmentView>, n: nat) -> Seq<Seq<char>>
    decreases n,
{
    if n == 0 {
        seq![]
    } else if is_stuck(fs, n - 1) {
        stuck_names(fs, (n - 1) as nat).push(fs[n - 1].filename)
    } else {
        stuck_names(fs, (n - 1) as nat)
    }
}

/// The fragments at the given positions.
pub open spec fn pick(fs: Seq<FragmentView>, order: Seq<int>) -> Seq<FragmentView> {
    Seq::new(order.len(), |k: int| fs[order[k]])
}

// ---------------------------------------------------------------------------
// The tiebreaker is a strict total order
// ---------------------------------------------------------------------------

/// Of two different identifiers exactly one comes first.
pub proof fn lemma_id_less_total(a: FragmentIdView, b: FragmentIdView)
    ensures
        id_less(a, b) ==> !id_less(b, a) && a != b,
        a != b ==> id_less(a, b) || id_less(b, a),
{
    match (a, b) {
        (FragmentIdView::Slug(x), FragmentIdView::Slug(y)) => lemma_text_less_total(x, y),
        _ => {},
    }
}

/// The order of identifiers is transitive.
pub proof fn lemma_id_less_transitive(a: FragmentIdView, b: FragmentIdView, c: FragmentIdView)
    requires
        id_less(a, b),
        id_less(b, c),
    ensures
        id_less(a, c),
{
    match (a, b, c) {
        (
            FragmentIdView::Slug(x),
            FragmentIdView::Slug(y),
            FragmentIdView::Slug(z),
        ) => lemma_text_less_transitive(x, y, z),
        _ => {},
    }
}

/// Of two different positions exactly one comes first by the tiebreaker.
pub proof fn lemma_key_less_total(fs: Seq<FragmentView>, i: int, j: int)
    ensures
        key_less(fs, i, j) ==> !key_less(fs, j, i) && i != j,
        i != j ==> key_less(fs, i, j) || key_less(fs, j, i),
{
    lemma_id_less_total(fs[i].id, fs[j].id);
    lemma_id_less_total(fs[j].id, fs[i].id);
    lemma_text_less_total(fs[i].filename, fs[j].filename);
    lemma_text_less_total(fs[j].filename, fs[i].filename);
}

/// The tiebreaker is transitive.
pub proof fn lemma_key_less_transitive(fs: Seq<FragmentView>, i: int, j: int, k: int)
    requires
        key_less(fs, i, j),
        key_less(fs, j, k),
    ensures
        key_less(fs, i, k),
{
    let (a, b, c) = (fs[i], fs[j], fs[k]);
    if id_less(a.id, b.id) && id_less(b.id, c.id) {
        lemma_id_less_transitive(a.id, b.id, c.id);
    } else if a.id == b.id && b.id == c.id {
        if text_less(a.filename, b.filename) && text_less(b.filename, c.filename) {
            lemma_text_less_transitive(a.filename, b.filename, c.filename);
        }
    }
}

proof fn lemma_next_unique(fs: Seq<FragmentView>, done: Seq<int>, i: int, j: int)
    requires
        is_next(fs, done, i),
        is_next(fs, done, j),
    ensures
        i == j,
{
    if i != j {
        lemma_key_less_total(fs, i, j);
    }
}

// ---------------------------------------------------------------------------
// Orders built step by step
// ---------------------------------------------------------------------------

/// Whether each position in `order` is the next one after those before it.
pub open spec fn is_run(fs: Seq<FragmentView>, order: Seq<int>) -> bool {
    forall|k: int| 0 <= k < order.len() ==> is_next(fs, order.take(k), #[trigger] order[k])
}

proof fn lemma_run_push(fs: Seq<FragmentView>, done: Seq<int>, i: int)
    requires
        is_run(fs, done),
        is_next(fs, done, i),
    ensures
        is_run(fs, done.push(i)),
{
    let more = done.push(i);
    assert forall|k: int| 0 <= k < more.len() implies is_next(
        fs,
        more.take(k),
        #[trigger] more[k],
    ) by {
        if k < done.len() {
            assert(more.take(k) =~= done.take(k));
            assert(is_next(fs, done.take(k), done[k]));
        } else {
            assert(more.take(k) =~= done);
        }
    }
}

/// A run is the beginning of the order of application.
proof fn lemma_run_prefix(fs: Seq<FragmentView>, done: Seq<int>)
    requires
        is_run(fs, done),
    ensures
        order_from(fs, done) == apply_order(fs),
        done.len() <= fs.len(),
    decreases done.len(),
{
    if done.len() == 0 {
        assert(done =~= seq![]);
    } else {
        let prev = done.drop_last();
        let i = done.last();
        assert(is_run(fs, prev)) by {
            assert forall|k: int| 0 <= k < prev.len() implies is_next(
                fs,
                prev.take(k),
                #[trigger] prev[k],
            ) by {
                assert(prev.take(k) =~= done.take(k));
                assert(is_next(fs, done.take(k), done[k]));
            }
        }
        lemma_run_prefix(fs, prev);
        assert(done.take(done.len() - 1) =~= prev);
        assert(is_next(fs, done.take(done.len() - 1), done[done.len() - 1]));
        assert(is_next(fs, prev, i));
        let c = choose|j: int| is_next(fs, prev, j);
        lemma_next_unique(fs, prev, c, i);
        assert(prev.push(i) =~= done);
        lemma_run_no_duplicates(fs, prev);
        lemma_room(fs, prev, i);
    }
}

/// A run visits no position twice.
proof fn lemma_run_no_duplicates(fs: Seq<FragmentView>, order: Seq<int>)
    requires
        is_run(fs, order),
    ensures
        order.no_duplicates(),
        forall|k: int| 0 <= k < order.len() ==> 0 <= #[trigger] order[k] < fs.len(),
{
    assert forall|a: int, b: int|
        0 <= a < order.len() && 0 <= b < order.len() && a != b implies order[a] != order[b] by {
        let (lo, hi) = if a < b {
            (a, b)
        } else {
            (b, a)
        };
        assert(is_next(fs, order.take(hi), order[hi]));
        assert(order.take(hi)[lo] == order[lo]);
    }
    assert forall|k: int| 0 <= k < order.len() implies 0 <= #[trigger] order[k] < fs.len() by {
        assert(is_next(fs, order.take(k), order[k]));
    }
}

/// A repetition-free list of positions that misses one is shorter than the input.
proof fn lemma_room(fs: Seq<FragmentView>, done: Seq<int>, i: int)
    requires
        done.no_duplicates(),
        forall|k: int| 0 <= k < done.len() ==> 0 <= #[trigger] done[k] < fs.len(),
        0 <= i < fs.len(),
        !done.contains(i),
    ensures
        done.len() < fs.len(),
{
    let all = vstd::set_lib::set_int_range(0, fs.len() as int);
    vstd::set_lib::lemma_int_range(0, fs.len() as int);
    done.unique_seq_to_set();
    let s = done.to_set();
    assert(s.subset_of(all.remove(i))) by {
        assert forall|x: int| s.contains(x) implies all.remove(i).contains(x) by {
            assert(done.contains(x));
        }
    }
    vstd::set_lib::lemma_len_subset(s, all.remove(i));
}

/// A run after which nothing is ready is the whole order of application, and what
/// it leaves out is stuck.
proof fn lemma_run_complete(fs: Seq<FragmentView>, order: Seq<int>)
    requires
        is_run(fs, order),
        forall|i: int| !is_ready(fs, order, i),
    ensures
        apply_order(fs) == order,
        forall|i: int|
            0 <= i < fs.len() ==> (#[trigger] order.contains(i) <==> !is_stuck(fs, i)),
{
    reveal(is_stuck);
    lemma_run_prefix(fs, order);
    assert(order_from(fs, order) == order) by {
        assert(forall|i: int| !is_next(fs, order, i));
    }
    let left = Set::new(|i: int| 0 <= i < fs.len() && !order.contains(i));
    assert(is_knot(fs, left)) by {
        reveal(is_knot);
        assert forall|i: int| #[trigger] left.contains(i) implies exists|t: int|
            needs(fs, i, t) && left.contains(t) by {
            assert(!is_ready(fs, order, i));
            let t = choose|t: int| #[trigger] needs(fs, i, t) && !order.contains(t);
            assert(needs(fs, i, t) && left.contains(t));
        }
    }
    assert forall|i: int| 0 <= i < fs.len() implies (#[trigger] order.contains(i) <==> !is_stuck(
        fs,
        i,
    )) by {
        if !order.contains(i) {
            assert(left.contains(i));
        } else if is_stuck(fs, i) {
            let s = choose|s: Set<int>| #[trigger] s.contains(i) && is_knot(fs, s);
            let k = order.index_of(i);
            lemma_run_avoids_knots(fs, order, s, k);
        }
    }
}

/// From a position in a knot, a prerequisite in it.
proof fn lemma_knot_step(fs: Seq<FragmentView>, s: Set<int>, i: int) -> (t: int)
    requires
        is_knot(fs, s),
        s.contains(i),
    ensures
        needs(fs, i, t),
        s.contains(t),
{
    reveal(is_knot);
    choose|t: int| needs(fs, i, t) && s.contains(t)
}

/// No position of a run lies in a knot.
proof fn lemma_run_avoids_knots(fs: Seq<FragmentView>, order: Seq<int>, s: Set<int>, k: int)
    requires
        is_run(fs, order),
        is_knot(fs, s),
        0 <= k < order.len(),
    ensures
        !s.contains(order[k]),
    decreases k,
{
    if s.contains(order[k]) {
        let t = lemma_knot_step(fs, s, order[k]);
        assert(is_next(fs, order.take(k), order[k]));
        assert(order.take(k).contains(t));
        let m = order.take(k).index_of(t);
        assert(order[m] == t);
        lemma_run_avoids_knots(fs, order, s, m);
    }
}

// ---------------------------------------------------------------------------
// Sorting
// ---------------------------------------------------------------------------

/// Positions as mathematical integers.
pub open spec fn positions(v: Seq<usize>) -> Seq<int> {
    Seq::new(v.len(), |k: int| v[k] as int)
}

/// Tells whether the dependency means the fragment at `t`.
fn dependency_names(
    fragments: &Vec<MigrationFragment>,
    dep: &FragmentDependency,
    t: usize,
) -> (r: bool)
    requires
        t < fragments@.len(),
    ensures
        r == names(fragment_views(fragments@), dep@, t as int),
{
    let ghost fs = fragment_views(fragments@);
    assert(fs[t as int] == fragments@[t as int]@);
    match dep {
        FragmentDependency::Id(id) => fragments[t].id.same(id),
        FragmentDependency::Filename(name) => {
            if fragments[t].filename != *name {
                return false;
            }
            let n = fragments.len();
            let mut u: usize = t + 1;
            while u < n
                invariant
                    t < u <= n == fragments@.len(),
                    dep@ == DependencyView::Filename(name@),
                    fs == fragment_views(fragments@),
                    forall|v: int| t < v < u ==> (#[trigger] fs[v]).filename != name@,
                decreases fragments@.len() - u,
            {
                assert(fs[u as int] == fragments@[u as int]@);
                if fragments[u].filename == *name {
                    return false;
                }
                u += 1;
            }
            true
        },
    }
}

/// Tells whether the fragment at `t` is a prerequisite of the one at `i`.
fn fragment_needs(fragments: &Vec<MigrationFragment>, i: usize, t: usize) -> (r: bool)
    requires
        i < fragments@.len(),
        t < fragments@.len(),
    ensures
        r == needs(fragment_views(fragments@), i as int, t as int),
{
    if t == i {
        return false;
    }
    let ghost fs = fragment_views(fragments@);
    assert(fs[i as int] == fragments@[i as int]@);
    let mut d: usize = 0;
    while d < fragments[i].dependencies.len()
        invariant
            i < fragments@.len(),
            t < fragments@.len(),
            t != i,
            fs == fragment_views(fragments@),
            fs[i as int] == fragments@[i as int]@,
            d <= fragments@[i as int].dependencies@.len(),
            forall|e: int|
                0 <= e < d ==> !names(fs, #[trigger] fs[i as int].dependencies[e], t as int),
        decreases fragments@[i as int].dependencies@.len() - d,
    {
        assert(fs[i as int].dependencies[d as int] == fragments@[i as int].dependencies@[d as int]@);
        if dependency_names(fragments, &fragments[i].dependencies[d], t) {
            return true;
        }
        d += 1;
    }
    false
}

/// The prerequisites of the fragment at `i`.
fn prerequisites(fragments: &Vec<MigrationFragment>, i: usize) -> (r: Vec<usize>)
    requires
        i < fragments@.len(),
    ensures
        forall|t: int|
            needs(fragment_views(fragments@), i as int, t) <==> positions(r@).contains(t),
{
    let ghost fs = fragment_views(fragments@);
    let mut out: Vec<usize> = Vec::new();
    let mut t: usize = 0;
    while t < fragments.len()
        invariant
            i < fragments@.len(),
            t <= fragments@.len(),
            fs == fragment_views(fragments@),
            forall|u: int| 0 <= u < t && needs(fs, i as int, u) ==> positions(out@).contains(u),
            forall|k: int| 0 <= k < out@.len() ==> needs(fs, i as int, #[trigger] out@[k] as int),
        decreases fragments@.len() - t,
    {
        if fragment_needs(fragments, i, t) {
            let ghost before = out@;
            out.push(t);
            proof {
                assert(positions(out@)[before.len() as int] == t);
                assert forall|u: int| positions(before).contains(u) implies positions(
                    out@,
                ).contains(u) by {
                    let k = positions(before).index_of(u);
                    assert(positions(out@)[k] == u);
                }
            }
        }
        t += 1;
    }
    proof {
        assert forall|u: int| positions(out@).contains(u) implies needs(fs, i as int, u) by {
            let k = positions(out@).index_of(u);
            assert(out@[k] as int == u);
        }
    }
    out
}

/// Tells whether the fragment at `i` comes before the one at `j` by the tiebreaker.
fn key_precedes(fragments: &Vec<MigrationFragment>, i: usize, j: usize) -> (r: bool)
    requires
        i < fragments@.len(),
        j < fragments@.len(),
    ensures
        r == key_less(fragment_views(fragments@), i as int, j as int),
{
    proof {
        let fs = fragment_views(fragments@);
        assert(fs[i as int] == fragments@[i as int]@);
        assert(fs[j as int] == fragments@[j as int]@);
        lemma_id_less_total(fs[i as int].id, fs[j as int].id);
        lemma_text_less_total(fs[i as int].filename, fs[j as int].filename);
    }
    if fragments[i].id.precedes(&fragments[j].id) {
        return true;
    }
    if !fragments[i].id.same(&fragments[j].id) {
        return false;
    }
    if text_precedes(fragments[i].filename.as_str(), fragments[j].filename.as_str()) {
        return true;
    }
    fragments[i].filename == fragments[j].filename && i < j
}

/// Whether `placed` marks the positions in `done`.
spec fn marks(placed: Seq<bool>, done: Seq<int>) -> bool {
    forall|i: int| 0 <= i < placed.len() ==> (#[trigger] placed[i] <==> done.contains(i))
}

/// Tells whether all the given positions are marked.
fn all_placed(needed: &Vec<usize>, placed: &Vec<bool>) -> (r: bool)
    requires
        forall|k: int| 0 <= k < needed@.len() ==> #[trigger] needed@[k] < placed@.len(),
    ensures
        r == forall|t: int| positions(needed@).contains(t) ==> placed@[t],
{
    let mut k: usize = 0;
    while k < needed.len()
        invariant
            k <= needed@.len(),
            forall|j: int| 0 <= j < needed@.len() ==> #[trigger] needed@[j] < placed@.len(),
            forall|j: int| 0 <= j < k ==> placed@[#[trigger] needed@[j] as int],
        decreases needed@.len() - k,
    {
        if !placed[needed[k]] {
            assert(positions(needed@)[k as int] == needed@[k as int]);
            return false;
        }
        k += 1;
    }
    proof {
        assert forall|t: int| positions(needed@).contains(t) implies placed@[t] by {
            let j = positions(needed@).index_of(t);
            assert(needed@[j] as int == t);
        }
    }
    true
}

/// The first position by the tiebreaker that can follow the marked ones.
fn next_position(
    fragments: &Vec<MigrationFragment>,
    needed: &Vec<Vec<usize>>,
    placed: &Vec<bool>,
    done: Ghost<Seq<int>>,
) -> (r: Option<usize>)
    requires
        needed@.len() == fragments@.len(),
        placed@.len() == fragments@.len(),
        marks(placed@, done@),
        forall|i: int, t: int|
            #![trigger needs(fragment_views(fragments@), i, t)]
            0 <= i < fragments@.len() ==> (needs(fragment_views(fragments@), i, t) <==> positions(
                needed@[i]@,
            ).contains(t)),
    ensures
        match r {
            Some(i) => is_next(fragment_views(fragments@), done@, i as int),
            None => forall|i: int| !is_ready(fragment_views(fragments@), done@, i),
        },
{
    let ghost fs = fragment_views(fragments@);
    let ghost done = done@;
    let mut best: Option<usize> = None;
    let mut i: usize = 0;
    while i < fragments.len()
        invariant
            i <= fragments@.len(),
            fs == fragment_views(fragments@),
            needed@.len() == fragments@.len(),
            placed@.len() == fragments@.len(),
            marks(placed@, done),
            forall|i: int, t: int|
                #![trigger needs(fs, i, t)]
                0 <= i < fragments@.len() ==> (needs(fs, i, t) <==> positions(
                    needed@[i]@,
                ).contains(t)),
            match best {
                Some(b) => {
                    &&& b < i
                    &&& is_ready(fs, done, b as int)
                    &&& forall|j: int|
                        0 <= j < i && #[trigger] is_ready(fs, done, j) && j != b ==> key_less(
                            fs,
                            b as int,
                            j,
                        )
                },
                None => forall|j: int| 0 <= j < i ==> !#[trigger] is_ready(fs, done, j),
            },
        decreases fragments@.len() - i,
    {
        if !placed[i] {
            proof {
                assert forall|k: int| 0 <= k < needed@[i as int]@.len() implies (
                #[trigger] needed@[i as int]@[k]) < placed@.len() by {
                    let t = needed@[i as int]@[k] as int;
                    assert(positions(needed@[i as int]@)[k] == t);
                    assert(needs(fs, i as int, t));
                }
            }
            let open = all_placed(&needed[i], placed);
            proof {
                assert(open == is_ready(fs, done, i as int)) by {
                    if open {
                        assert forall|t: int| #[trigger] needs(fs, i as int, t) implies done.contains(
                            t,
                        ) by {
                            assert(positions(needed@[i as int]@).contains(t));
                            assert(placed@[t]);
                        }
                    } else {
                        let t = choose|t: int|
                            positions(needed@[i as int]@).contains(t) && !placed@[t];
                        assert(needs(fs, i as int, t));
                    }
                }
            }
            if open {
                match best {
                    None => {
                        best = Some(i);
                    },
                    Some(b) => {
                        proof {
                            lemma_key_less_total(fs, i as int, b as int);
                            assert forall|j: int|
                                key_less(fs, i as int, b as int) && key_less(
                                    fs,
                                    b as int,
                                    j,
                                ) implies key_less(fs, i as int, j) by {
                                lemma_key_less_transitive(fs, i as int, b as int, j);
                            }
                        }
                        if key_precedes(fragments, i, b) {
                            best = Some(i);
                        }
                    },
                }
            }
        } else {
            assert(done.contains(i as int));
        }
        i += 1;
    }
    best
}

/// Whether a dependency means one of the fragments.
pub open spec fn is_listed(fs: Seq<FragmentView>, dep: DependencyView) -> bool {
    exists|t: int| 0 <= t < fs.len() && #[trigger] names(fs, dep, t)
}

/// The note that a prerequisite is not among the fragments.
pub open spec fn missing_note(f: FragmentView, dep: DependencyView) -> Seq<char> {
    "fragment `"@ + f.filename + "` declares prerequisite `"@ + dependency_text(dep)
        + "`, which was not found in unreleased fragments (assuming already applied in previous release)"@
}

/// The notes on the first `n` dependencies of a fragment.
pub open spec fn missing_notes_of(fs: Seq<FragmentView>, f: FragmentView, n: nat) -> Seq<Seq<char>>
    decreases n,
{
    if n == 0 {
        seq![]
    } else {
        let earlier = missing_notes_of(fs, f, (n - 1) as nat);
        if is_listed(fs, f.dependencies[n - 1]) {
            earlier
        } else {
            earlier.push(missing_note(f, f.dependencies[n - 1]))
        }
    }
}

/// The notes on the prerequisites of the first `n` fragments that are not among them.
pub open spec fn missing_notes(fs: Seq<FragmentView>, n: nat) -> Seq<Seq<char>>
    decreases n,
{
    if n == 0 {
        seq![]
    } else {
        missing_notes(fs, (n - 1) as nat) + missing_notes_of(
            fs,
            fs[n - 1],
            fs[n - 1].dependencies.len(),
        )
    }
}

/// Tells whether a dependency means one of the fragments.
fn lists_dependency(fragments: &Vec<MigrationFragment>, dep: &FragmentDependency) -> (r: bool)
    ensures
        r == is_listed(fragment_views(fragments@), dep@),
{
    let ghost fs = fragment_views(fragments@);
    let mut t: usize = 0;
    while t < fragments.len()
        invariant
            t <= fragments@.len(),
            fs == fragment_views(fragments@),
            forall|u: int| 0 <= u < t ==> !#[trigger] names(fs, dep@, u),
        decreases fragments@.len() - t,
    {
        if dependency_names(fragments, dep, t) {
            return true;
        }
        t += 1;
    }
    false
}

/// Writes the note that a prerequisite is not among the fragments.
fn note_missing(fragment: &MigrationFragment, dep: &FragmentDependency) -> (r: String)
    ensures
        r@ == missing_note(fragment@, dep@),
{
    let mut note = "fragment `".to_owned();
    note.append(fragment.filename.as_str());
    note.append("` declares prerequisite `");
    note.append(dep.to_string().as_str());
    note.append(
        "`, which was not found in unreleased fragments (assuming already applied in previous release)",
    );
    note
}

/// Notes the prerequisites that are not among the fragments. They count as applied.
pub fn note_missing_prerequisites(fragments: &Vec<MigrationFragment>) -> (r: Vec<String>)
    ensures
        texts(r@) == missing_notes(fragment_views(fragments@), fragments@.len()),
{
    let ghost fs = fragment_views(fragments@);
    let mut notes: Vec<String> = Vec::new();
    let mut i: usize = 0;
    assert(texts(notes@) =~= seq![]);
    while i < fragments.len()
        invariant
            i <= fragments@.len(),
            fs == fragment_views(fragments@),
            texts(notes@) == missing_notes(fs, i as nat),
        decreases fragments@.len() - i,
    {
        let ghost f = fs[i as int];
        let ghost base = texts(notes@);
        let mut d: usize = 0;
        assert(f == fragments@[i as int]@);
        assert(base + missing_notes_of(fs, f, 0) =~= base);
        while d < fragments[i].dependencies.len()
            invariant
                i < fragments@.len(),
                fs == fragment_views(fragments@),
                f == fragments@[i as int]@,
                d <= fragments@[i as int].dependencies@.len(),
                texts(notes@) == base + missing_notes_of(fs, f, d as nat),
            decreases fragments@[i as int].dependencies@.len() - d,
        {
            let dep = &fragments[i].dependencies[d];
            assert(f.dependencies[d as int] == dep@);
            if !lists_dependency(fragments, dep) {
                let note = note_missing(&fragments[i], dep);
                let ghost earlier = notes@;
                notes.push(note);
                assert(texts(notes@) =~= texts(earlier).push(note@));
                assert(texts(notes@) =~= base + missing_notes_of(fs, f, (d + 1) as nat));
            }
            d += 1;
        }
        i += 1;
    }
    notes
}

/// The positions of the fragments in the order in which they are applied.
pub fn sort_positions(fragments: &Vec<MigrationFragment>) -> (r: Result<Vec<usize>, MigrateError>)
    ensures
        r is Ok <==> is_acyclic(fragment_views(fragments@)),
        match r {
            Ok(order) => positions(order@) == apply_order(fragment_views(fragments@))
                && order@.len() == fragments@.len(),
            Err(e) => e@ == (ErrorView::CircularDependency {
                filenames: stuck_names(fragment_views(fragments@), fragments@.len()),
            }),
        },
{
    let ghost fs = fragment_views(fragments@);
    let n = fragments.len();
    let mut needed: Vec<Vec<usize>> = Vec::new();
    let mut placed: Vec<bool> = Vec::new();
    let mut i: usize = 0;
    while i < n
        invariant
            i <= n == fragments@.len(),
            fs == fragment_views(fragments@),
            needed@.len() == i,
            placed@.len() == i,
            forall|j: int| 0 <= j < i ==> !#[trigger] placed@[j],
            forall|j: int, t: int|
                #![trigger needs(fs, j, t)]
                0 <= j < i ==> (needs(fs, j, t) <==> positions(needed@[j]@).contains(t)),
        decreases n - i,
    {
        let list = prerequisites(fragments, i);
        needed.push(list);
        placed.push(false);
        i += 1;
    }
    let mut order: Vec<usize> = Vec::new();
    assert(marks(placed@, positions(order@)));
    loop
        invariant_except_break
            n == fragments@.len(),
            fs == fragment_views(fragments@),
            needed@.len() == n,
            placed@.len() == n,
            forall|j: int, t: int|
                #![trigger needs(fs, j, t)]
                0 <= j < n ==> (needs(fs, j, t) <==> positions(needed@[j]@).contains(t)),
            is_run(fs, positions(order@)),
            marks(placed@, positions(order@)),
            order@.len() <= n,
        ensures
            placed@.len() == n,
            marks(placed@, positions(order@)),
            is_run(fs, positions(order@)),
            order@.len() <= n,
            forall|i: int| !is_ready(fs, positions(order@), i),
        decreases n - order@.len(),
    {
        match next_position(fragments, &needed, &placed, Ghost(positions(order@))) {
            None => {
                break;
            },
            Some(k) => {
                let ghost done = positions(order@);
                proof {
                    lemma_run_push(fs, done, k as int);
                    lemma_run_no_duplicates(fs, done);
                    lemma_room(fs, done, k as int);
                }
                order.push(k);
                placed.set(k, true);
                proof {
                    assert(positions(order@) =~= done.push(k as int));
                    assert forall|i: int| 0 <= i < placed@.len() implies (#[trigger] placed@[i]
                        <==> positions(order@).contains(i)) by {
                        if i == k {
                            assert(positions(order@)[done.len() as int] == k);
                        } else if done.contains(i) {
                            let m = done.index_of(i);
                            assert(positions(order@)[m] == i);
                        } else if positions(order@).contains(i) {
                            let m = positions(order@).index_of(i);
                            assert(done[m] == i);
                        }
                    }
                }
            },
        }
    }
    let ghost done = positions(order@);
    proof {
        lemma_run_complete(fs, done);
        lemma_run_no_duplicates(fs, done);
    }
    if order.len() == n {
        proof {
            assert forall|i: int| 0 <= i < fragments@.len() implies !is_stuck(fs, i) by {
                if !done.contains(i) {
                    lemma_room(fs, done, i);
                }
            }
        }
        return Ok(order);
    }
    let mut filenames: Vec<String> = Vec::new();
    let mut i: usize = 0;
    while i < n
        invariant
            i <= n == fragments@.len(),
            fs == fragment_views(fragments@),
            placed@.len() == n,
            marks(placed@, done),
            forall|i: int|
                0 <= i < fs.len() ==> (#[trigger] done.contains(i) <==> !is_stuck(fs, i)),
            texts(filenames@) == stuck_names(fs, i as nat),
        decreases n - i,
    {
        if !placed[i] {
            let name = fragments[i].filename.clone();
            let ghost before = filenames@;
            filenames.push(name);
            assert(texts(filenames@) =~= texts(before).push(fs[i as int].filename));
        }
        assert(placed@[i as int] <==> done.contains(i as int));
        i += 1;
    }
    proof {
        if forall|i: int| 0 <= i < fragments@.len() ==> !is_stuck(fs, i) {
            lemma_covers(fs, done);
        }
    }
    Err(MigrateError::CircularDependency { filenames })
}

/// A repetition-free list of all positions is as long as the input.
proof fn lemma_covers(fs: Seq<FragmentView>, done: Seq<int>)
    requires
        done.no_duplicates(),
        forall|k: int| 0 <= k < done.len() ==> 0 <= #[trigger] done[k] < fs.len(),
        forall|i: int| 0 <= i < fs.len() ==> #[trigger] done.contains(i),
    ensures
        done.len() == fs.len(),
{
    let all = vstd::set_lib::set_int_range(0, fs.len() as int);
    vstd::set_lib::lemma_int_range(0, fs.len() as int);
    done.unique_seq_to_set();
    assert(done.to_set() =~= all);
}

/// Sorts fragments so that each one comes after its prerequisites, and by the
/// tiebreaker where they leave a choice. Fragments that wait for each other are
/// refused; a dependency that means no fragment here counts as applied.
pub fn topological_sort_fragments(fragments: Vec<MigrationFragment>) -> (r: Result<
    Vec<MigrationFragment>,
    MigrateError,
>)
    ensures
        r is Ok <==> is_acyclic(fragment_views(fragments@)),
        match r {
            Ok(sorted) => fragment_views(sorted@) == pick(
                fragment_views(fragments@),
                apply_order(fragment_views(fragments@)),
            ) && sorted@.len() == fragments@.len(),
            Err(e) => e@ == (ErrorView::CircularDependency {
                filenames: stuck_names(fragment_views(fragments@), fragments@.len()),
            }),
        },
        r matches Ok(sorted) ==> forall|a: int, b: int, d: int|
            #![trigger sorted@[a], sorted@[b].dependencies@[d]]
            0 <= a < sorted@.len() && 0 <= b < sorted@.len() && a != b && 0 <= d
                < sorted@[b].dependencies@.len() && sorted@[b].dependencies@[d]@
                == DependencyView::Id(sorted@[a].id@) ==> a < b,
{
    let ghost fs = fragment_views(fragments@);
    let order = match sort_positions(&fragments) {
        Ok(order) => order,
        Err(e) => return Err(e),
    };
    let ghost done = positions(order@);
    proof {
        lemma_apply_order(fs);
    }
    let mut slots: Vec<Option<MigrationFragment>> = Vec::new();
    for f in it: fragments
        invariant
            slots@.len() == it.index(),
            it.seq() == fragments@,
            forall|i: int| 0 <= i < slots@.len() ==> #[trigger] slots@[i] == Some(it.seq()[i]),
    {
        slots.push(Some(f));
    }
    let mut sorted: Vec<MigrationFragment> = Vec::new();
    let mut k: usize = 0;
    while k < order.len()
        invariant
            k <= order@.len() == fragments@.len(),
            sorted@.len() == k,
            slots@.len() == fragments@.len(),
            done == positions(order@),
            done.no_duplicates(),
            fs == fragment_views(fragments@),
            forall|j: int| 0 <= j < done.len() ==> 0 <= #[trigger] done[j] < fragments@.len(),
            forall|j: int|
                k <= j < done.len() ==> slots@[#[trigger] done[j]] == Some(fragments@[done[j]]),
            forall|j: int| 0 <= j < k ==> (#[trigger] sorted@[j])@ == fs[done[j]],
        decreases order@.len() - k,
    {
        let i = order[k];
        assert(done[k as int] == i);
        if let Some(f) = slots[i].take() {
            sorted.push(f);
        }
        k += 1;
    }
    assert(fragment_views(sorted@) =~= pick(fs, done));
    assert forall|a: int, b: int, d: int|
        #![trigger sorted@[a], sorted@[b].dependencies@[d]]
        0 <= a < sorted@.len() && 0 <= b < sorted@.len() && a != b && 0 <= d
            < sorted@[b].dependencies@.len() && sorted@[b].dependencies@[d]@
            == DependencyView::Id(sorted@[a].id@) implies a < b by {
        let all = fragment_views(sorted@);
        assert(all[a] == sorted@[a]@ && all[b] == sorted@[b]@);
        law_each_dependency_comes_first(fs, a, b, d);
    }
    Ok(sorted)
}

/// The order of application visits no position twice, and takes each one as the
/// first by the tiebreaker that can follow those before it.
pub proof fn lemma_apply_order(fs: Seq<FragmentView>)
    ensures
        is_run(fs, apply_order(fs)),
        apply_order(fs).no_duplicates(),
        forall|k: int|
            0 <= k < apply_order(fs).len() ==> 0 <= #[trigger] apply_order(fs)[k] < fs.len(),
{
    lemma_order_from_runs(fs, seq![]);
    lemma_run_no_duplicates(fs, apply_order(fs));
}

proof fn lemma_order_from_runs(fs: Seq<FragmentView>, done: Seq<int>)
    requires
        is_run(fs, done),
    ensures
        is_run(fs, order_from(fs, done)),
    decreases fs.len() - done.len(),
{
    if done.len() < fs.len() && exists|i: int| is_next(fs, done, i) {
        let i = choose|i: int| is_next(fs, done, i);
        lemma_run_push(fs, done, i);
        lemma_order_from_runs(fs, done.push(i));
    }
}

// ---------------------------------------------------------------------------
// Laws
// ---------------------------------------------------------------------------

/// Where some position is ready, one of them is the next.
proof fn lemma_next_exists(fs: Seq<FragmentView>, done: Seq<int>, i: int) -> (b: int)
    requires
        is_ready(fs, done, i),
    ensures
        is_next(fs, done, b),
{
    lemma_first_ready(fs, done, i, fs.len())
}

/// The first by the tiebreaker among `i` and the ready positions below `n`.
proof fn lemma_first_ready(fs: Seq<FragmentView>, done: Seq<int>, i: int, n: nat) -> (b: int)
    requires
        is_ready(fs, done, i),
        n <= fs.len(),
    ensures
        is_ready(fs, done, b),
        b == i || key_less(fs, b, i),
        forall|j: int|
            0 <= j < n && #[trigger] is_ready(fs, done, j) && j != b ==> key_less(fs, b, j),
    decreases n,
{
    if n == 0 {
        i
    } else {
        let b = lemma_first_ready(fs, done, i, (n - 1) as nat);
        let j = n - 1;
        lemma_key_less_total(fs, b, j);
        if is_ready(fs, done, j) && j != b && key_less(fs, j, b) {
            assert forall|k: int|
                0 <= k < n && #[trigger] is_ready(fs, done, k) && k != j implies key_less(
                fs,
                j,
                k,
            ) by {
                if k != b {
                    lemma_key_less_transitive(fs, j, b, k);
                }
            }
            if b != i {
                lemma_key_less_transitive(fs, j, b, i);
            }
            j
        } else {
            b
        }
    }
}

proof fn lemma_order_from_stops(fs: Seq<FragmentView>, done: Seq<int>)
    requires
        is_run(fs, done),
    ensures
        forall|i: int| !is_ready(fs, order_from(fs, done), i),
    decreases fs.len() - done.len(),
{
    if done.len() < fs.len() && exists|i: int| is_next(fs, done, i) {
        let i = choose|i: int| is_next(fs, done, i);
        lemma_run_push(fs, done, i);
        lemma_order_from_stops(fs, done.push(i));
        assert(order_from(fs, done) == order_from(fs, done.push(i)));
    } else {
        assert(order_from(fs, done) == done);
        assert forall|i: int| !is_ready(fs, done, i) by {
            if is_ready(fs, done, i) {
                let b = lemma_next_exists(fs, done, i);
                lemma_run_no_duplicates(fs, done);
                lemma_room(fs, done, i);
            }
        }
    }
}

/// Every fragment has its place in the order of application, or is stuck.
pub proof fn law_placed_or_stuck(fs: Seq<FragmentView>)
    ensures
        apply_order(fs).no_duplicates(),
        forall|k: int|
            0 <= k < apply_order(fs).len() ==> 0 <= #[trigger] apply_order(fs)[k] < fs.len(),
        forall|i: int|
            0 <= i < fs.len() ==> (#[trigger] apply_order(fs).contains(i) <==> !is_stuck(fs, i)),
{
    lemma_apply_order(fs);
    lemma_order_from_stops(fs, seq![]);
    lemma_run_complete(fs, apply_order(fs));
}

/// A fragment is applied after each of its prerequisites.
pub proof fn law_prerequisites_first(fs: Seq<FragmentView>, a: int, b: int)
    requires
        0 <= a < apply_order(fs).len(),
        0 <= b < apply_order(fs).len(),
        needs(fs, apply_order(fs)[b], apply_order(fs)[a]),
    ensures
        a < b,
{
    let order = apply_order(fs);
    lemma_apply_order(fs);
    assert(is_next(fs, order.take(b), order[b]));
    assert(order.take(b).contains(order[a]));
    let m = order.take(b).index_of(order[a]);
    assert(order[m] == order[a]);
}

/// Where prerequisites leave a choice, the tiebreaker decides: a fragment that
/// comes before another in the tiebreaker's order is applied before it, unless it
/// still waits for a prerequisite.
pub proof fn law_tiebreaker_decides(fs: Seq<FragmentView>, a: int, b: int)
    requires
        0 <= a < b < apply_order(fs).len(),
        key_less(fs, apply_order(fs)[b], apply_order(fs)[a]),
    ensures
        exists|t: int|
            #[trigger] needs(fs, apply_order(fs)[b], t) && !apply_order(fs).take(a).contains(t),
{
    let order = apply_order(fs);
    lemma_apply_order(fs);
    assert(is_next(fs, order.take(a), order[a]));
    lemma_key_less_total(fs, order[a], order[b]);
    assert(!is_ready(fs, order.take(a), order[b]));
    if order.take(a).contains(order[b]) {
        let m = order.take(a).index_of(order[b]);
        assert(order[m] == order[b]);
    }
}

/// Whether each position of `circle` needs the following one, and the last the first.
pub open spec fn is_circle(fs: Seq<FragmentView>, circle: Seq<int>) -> bool {
    &&& circle.len() > 0
    &&& forall|k: int|
        0 <= k < circle.len() - 1 ==> needs(fs, #[trigger] circle[k], circle[k + 1])
    &&& needs(fs, circle.last(), circle[0])
}

/// Fragments that need each other in a circle are stuck, so that sorting fails.
pub proof fn law_circle_is_stuck(fs: Seq<FragmentView>, circle: Seq<int>, k: int)
    requires
        is_circle(fs, circle),
        0 <= k < circle.len(),
    ensures
        is_stuck(fs, circle[k]),
{
    reveal(is_stuck);
    reveal(is_knot);
    let s = circle.to_set();
    assert forall|i: int| #[trigger] s.contains(i) implies exists|t: int|
        needs(fs, i, t) && s.contains(t) by {
        let m = circle.index_of(i);
        assert(circle.contains(i));
        if m < circle.len() - 1 {
            assert(needs(fs, circle[m], circle[m + 1]));
            assert(circle.contains(circle[m + 1]));
            assert(s.contains(circle[m + 1]));
        } else {
            assert(circle.contains(circle[0]));
            assert(s.contains(circle[0]));
        }
    }
    assert(circle.contains(circle[k]));
    assert(s.contains(circle[k]));
}

/// Where a fragment is stuck, there is a circle of fragments that need each other:
/// sorting fails for no other reason.
pub proof fn law_stuck_has_circle(fs: Seq<FragmentView>, i: int) -> (circle: Seq<int>)
    requires
        is_stuck(fs, i),
    ensures
        is_circle(fs, circle),
{
    reveal(is_stuck);
    let s = choose|s: Set<int>| #[trigger] s.contains(i) && is_knot(fs, s);
    let chain = lemma_chain(fs, s, i, fs.len());
    if chain.no_duplicates() {
        lemma_chain_bound(fs, chain);
    }
    let (a, b) = choose|a: int, b: int|
        0 <= a < chain.len() && 0 <= b < chain.len() && a != b && chain[a] == chain[b];
    let (lo, hi) = if a < b {
        (a, b)
    } else {
        (b, a)
    };
    let circle = chain.subrange(lo, hi);
    assert forall|k: int| 0 <= k < circle.len() - 1 implies needs(
        fs,
        #[trigger] circle[k],
        circle[k + 1],
    ) by {
        assert(needs(fs, chain[lo + k], chain[lo + k + 1]));
    }
    assert(needs(fs, chain[hi - 1], chain[hi - 1 + 1]));
    circle
}

/// From a position in a knot one can go from need to need for as long as one likes.
proof fn lemma_chain(fs: Seq<FragmentView>, s: Set<int>, i: int, n: nat) -> (chain: Seq<int>)
    requires
        is_knot(fs, s),
        s.contains(i),
    ensures
        chain.len() == n + 1,
        s.contains(chain.last()),
        forall|k: int| 0 <= k < n ==> needs(fs, #[trigger] chain[k], chain[k + 1]),
        forall|k: int| 0 <= k <= n ==> 0 <= #[trigger] chain[k] < fs.len(),
    decreases n,
{
    if n == 0 {
        let t = lemma_knot_step(fs, s, i);
        seq![i]
    } else {
        let prev = lemma_chain(fs, s, i, (n - 1) as nat);
        let t = lemma_knot_step(fs, s, prev.last());
        let chain = prev.push(t);
        assert forall|k: int| 0 <= k < n implies needs(fs, #[trigger] chain[k], chain[k + 1]) by {
            if k < n - 1 {
                assert(needs(fs, prev[k], prev[k + 1]));
            }
        }
        assert forall|k: int| 0 <= k <= n implies 0 <= #[trigger] chain[k] < fs.len() by {
            if k < n {
                assert(0 <= prev[k] < fs.len());
            }
        }
        chain
    }
}

proof fn lemma_chain_bound(fs: Seq<FragmentView>, chain: Seq<int>)
    requires
        chain.no_duplicates(),
        forall|k: int| 0 <= k < chain.len() ==> 0 <= #[trigger] chain[k] < fs.len(),
    ensures
        chain.len() <= fs.len(),
{
    let all = vstd::set_lib::set_int_range(0, fs.len() as int);
    vstd::set_lib::lemma_int_range(0, fs.len() as int);
    chain.unique_seq_to_set();
    assert(chain.to_set().subset_of(all)) by {
        assert forall|x: int| chain.to_set().contains(x) implies all.contains(x) by {
            assert(chain.contains(x));
        }
    }
    vstd::set_lib::lemma_len_subset(chain.to_set(), all);
}

/// Prerequisites that are not among the fragments are taken as applied: where no
/// dependency means another fragment, all fragments are ordered, by the tiebreaker
/// alone.
pub proof fn law_missing_prerequisites_count_as_applied(fs: Seq<FragmentView>)
    requires
        forall|i: int, t: int| !needs(fs, i, t),
    ensures
        apply_order(fs).len() == fs.len(),
        forall|a: int, b: int|
            0 <= a < b < fs.len() ==> key_less(
                fs,
                #[trigger] apply_order(fs)[a],
                #[trigger] apply_order(fs)[b],
            ),
{
    let order = apply_order(fs);
    law_placed_or_stuck(fs);
    lemma_apply_order(fs);
    assert forall|i: int| 0 <= i < fs.len() implies #[trigger] order.contains(i) by {
        if is_stuck(fs, i) {
            let circle = law_stuck_has_circle(fs, i);
            assert(needs(fs, circle.last(), circle[0]));
        }
    }
    lemma_covers(fs, order);
    assert forall|a: int, b: int| 0 <= a < b < fs.len() implies key_less(
        fs,
        #[trigger] order[a],
        #[trigger] order[b],
    ) by {
        assert(is_next(fs, order.take(a), order[a]));
        if order.take(a).contains(order[b]) {
            let m = order.take(a).index_of(order[b]);
            assert(order[m] == order[b]);
        }
        assert(is_ready(fs, order.take(a), order[b]));
    }
}

/// Whether no two fragments share a file name.
pub open spec fn distinct_filenames(fs: Seq<FragmentView>) -> bool {
    forall|i: int, j: int|
        0 <= i < fs.len() && 0 <= j < fs.len() && i != j ==> (#[trigger] fs[i]).filename != (
        #[trigger] fs[j]).filename
}

/// Whether two lists hold the same fragments, perhaps in another order.
pub open spec fn same_fragments(fs: Seq<FragmentView>, gs: Seq<FragmentView>) -> bool {
    forall|f: FragmentView| #[trigger] fs.contains(f) <==> gs.contains(f)
}

/// Where the fragment at `i` stands in the other list.
spec fn place(fs: Seq<FragmentView>, gs: Seq<FragmentView>, i: int) -> int {
    gs.index_of(fs[i])
}

spec fn places(fs: Seq<FragmentView>, gs: Seq<FragmentView>, order: Seq<int>) -> Seq<int> {
    Seq::new(order.len(), |k: int| place(fs, gs, order[k]))
}

/// The order in which fragments are found plays no part: two lists of the same
/// fragments, with file names that differ, are applied in one and the same order.
pub proof fn law_input_order_is_irrelevant(fs: Seq<FragmentView>, gs: Seq<FragmentView>)
    requires
        distinct_filenames(fs),
        distinct_filenames(gs),
        same_fragments(fs, gs),
    ensures
        pick(fs, apply_order(fs)) == pick(gs, apply_order(gs)),
        is_acyclic(fs) <==> is_acyclic(gs),
        forall|name: Seq<char>| #[trigger]
            stuck_names(fs, fs.len()).contains(name) <==> stuck_names(gs, gs.len()).contains(name),
{
    let order = apply_order(fs);
    let moved = places(fs, gs, order);
    law_placed_or_stuck(fs);
    lemma_apply_order(fs);
    lemma_order_from_stops(fs, seq![]);
    assert forall|k: int| 0 <= k < moved.len() implies is_next(
        gs,
        moved.take(k),
        #[trigger] moved[k],
    ) by {
        let done = order.take(k);
        assert(moved.take(k) =~= places(fs, gs, done));
        let i = order[k];
        assert(is_next(fs, done, i));
        lemma_ready_moves(fs, gs, done, i);
        assert forall|j: int|
            #[trigger] is_ready(gs, moved.take(k), j) && j != moved[k] implies key_less(
            gs,
            moved[k],
            j,
        ) by {
            let b = place(gs, fs, j);
            lemma_place(gs, fs, j);
            lemma_place(fs, gs, b);
            lemma_place(fs, gs, i);
            lemma_ready_moves(fs, gs, done, b);
            assert(place(fs, gs, b) == j);
            assert(is_ready(fs, done, b));
            assert(key_less(fs, i, b));
            assert(fs[i].filename != fs[b].filename);
        }
    }
    assert forall|j: int| !is_ready(gs, moved, j) by {
        if is_ready(gs, moved, j) {
            let b = place(gs, fs, j);
            lemma_place(gs, fs, j);
            lemma_place(fs, gs, b);
            lemma_ready_moves(fs, gs, order, b);
            assert(is_ready(fs, order, b));
        }
    }
    lemma_run_complete(gs, moved);
    assert forall|k: int| 0 <= k < order.len() implies fs[#[trigger] order[k]] == gs[moved[k]] by {
        lemma_place(fs, gs, order[k]);
    }
    assert(pick(fs, order) =~= pick(gs, moved));
    lemma_stuck_is_left_out(fs);
    lemma_stuck_is_left_out(gs);
    assert forall|f: FragmentView| #[trigger] gs.contains(f) implies fs.contains(f) by {
        assert(fs.contains(f) <==> gs.contains(f));
    }
    assert forall|i: int| 0 <= i < fs.len() && #[trigger] is_stuck(fs, i) implies exists|j: int|
        0 <= j < gs.len() && #[trigger] is_stuck(gs, j) && gs[j] == fs[i] by {
        assert(fs.contains(fs[i]));
        let j = gs.index_of(fs[i]);
        assert(is_stuck(gs, j));
    }
    assert forall|j: int| 0 <= j < gs.len() && #[trigger] is_stuck(gs, j) implies exists|i: int|
        0 <= i < fs.len() && #[trigger] is_stuck(fs, i) && fs[i] == gs[j] by {
        assert(gs.contains(gs[j]));
        let i = fs.index_of(gs[j]);
        assert(is_stuck(fs, i));
    }
    assert forall|name: Seq<char>| #[trigger]
        stuck_names(fs, fs.len()).contains(name) <==> stuck_names(gs, gs.len()).contains(name) by {
        lemma_stuck_names(fs, fs.len(), name);
        lemma_stuck_names(gs, gs.len(), name);
    }
}

/// A fragment is stuck exactly where the order leaves it out.
proof fn lemma_stuck_is_left_out(fs: Seq<FragmentView>)
    requires
        distinct_filenames(fs),
    ensures
        forall|i: int|
            0 <= i < fs.len() ==> (#[trigger] is_stuck(fs, i) <==> !pick(
                fs,
                apply_order(fs),
            ).contains(fs[i])),
{
    let order = apply_order(fs);
    let sorted = pick(fs, order);
    law_placed_or_stuck(fs);
    assert forall|i: int| 0 <= i < fs.len() implies (#[trigger] is_stuck(fs, i)
        <==> !sorted.contains(fs[i])) by {
        assert(order.contains(i) <==> !is_stuck(fs, i));
        if order.contains(i) {
            assert(sorted[order.index_of(i)] == fs[i]);
        }
        if sorted.contains(fs[i]) {
            let k = sorted.index_of(fs[i]);
            assert(fs[order[k]].filename == fs[i].filename);
            assert(order[k] == i);
            assert(order.contains(i));
        }
    }
}

/// The names of the fragments below position `n` that are stuck.
proof fn lemma_stuck_names(fs: Seq<FragmentView>, n: nat, name: Seq<char>)
    requires
        n <= fs.len(),
    ensures
        stuck_names(fs, n).contains(name) <==> exists|i: int|
            0 <= i < n && #[trigger] is_stuck(fs, i) && fs[i].filename == name,
    decreases n,
{
    if n > 0 {
        let m = (n - 1) as nat;
        let earlier = stuck_names(fs, m);
        let all = stuck_names(fs, n);
        lemma_stuck_names(fs, m, name);
        if earlier.contains(name) {
            assert(all[earlier.index_of(name)] == name);
        }
        if is_stuck(fs, n - 1) {
            assert(all[earlier.len() as int] == fs[n - 1].filename);
        }
        if all.contains(name) {
            let k = all.index_of(name);
            if k < earlier.len() {
                assert(earlier[k] == name);
            }
        }
    }
}

proof fn lemma_place(fs: Seq<FragmentView>, gs: Seq<FragmentView>, i: int)
    requires
        distinct_filenames(fs),
        distinct_filenames(gs),
        same_fragments(fs, gs),
        0 <= i < fs.len(),
    ensures
        0 <= place(fs, gs, i) < gs.len(),
        gs[place(fs, gs, i)] == fs[i],
        forall|j: int| 0 <= j < gs.len() && #[trigger] gs[j] == fs[i] ==> j == place(fs, gs, i),
        place(gs, fs, place(fs, gs, i)) == i,
{
    assert(fs.contains(fs[i]));
    assert(gs.contains(fs[i]));
    let j = place(fs, gs, i);
    assert(gs[j] == fs[i]);
    assert(fs.contains(gs[j]));
    let b = fs.index_of(gs[j]);
    assert(fs[b] == fs[i]);
}

proof fn lemma_names_move(
    fs: Seq<FragmentView>,
    gs: Seq<FragmentView>,
    dep: DependencyView,
    t: int,
)
    requires
        distinct_filenames(fs),
        distinct_filenames(gs),
        same_fragments(fs, gs),
        0 <= t < fs.len(),
    ensures
        names(fs, dep, t) == names(gs, dep, place(fs, gs, t)),
{
    lemma_place(fs, gs, t);
    let p = place(fs, gs, t);
    assert(forall|u: int| t < u < fs.len() ==> (#[trigger] fs[u]).filename != fs[t].filename);
    assert(forall|u: int| p < u < gs.len() ==> (#[trigger] gs[u]).filename != gs[p].filename);
}

proof fn lemma_needs_move(fs: Seq<FragmentView>, gs: Seq<FragmentView>, i: int, t: int)
    requires
        distinct_filenames(fs),
        distinct_filenames(gs),
        same_fragments(fs, gs),
        0 <= i < fs.len(),
        0 <= t < fs.len(),
    ensures
        needs(fs, i, t) == needs(gs, place(fs, gs, i), place(fs, gs, t)),
{
    lemma_place(fs, gs, i);
    lemma_place(fs, gs, t);
    let a = place(fs, gs, i);
    let b = place(fs, gs, t);
    assert((t != i) == (a != b));
    assert forall|d: int| 0 <= d < fs[i].dependencies.len() implies names(
        fs,
        #[trigger] fs[i].dependencies[d],
        t,
    ) == names(gs, gs[a].dependencies[d], b) by {
        lemma_names_move(fs, gs, fs[i].dependencies[d], t);
    }
    if needs(fs, i, t) {
        let d = choose|d: int|
            0 <= d < fs[i].dependencies.len() && names(fs, #[trigger] fs[i].dependencies[d], t);
        assert(names(gs, gs[a].dependencies[d], b));
    }
    if needs(gs, a, b) {
        let d = choose|d: int|
            0 <= d < gs[a].dependencies.len() && names(gs, #[trigger] gs[a].dependencies[d], b);
        assert(names(fs, fs[i].dependencies[d], t));
    }
}

proof fn lemma_ready_moves(
    fs: Seq<FragmentView>,
    gs: Seq<FragmentView>,
    done: Seq<int>,
    i: int,
)
    requires
        distinct_filenames(fs),
        distinct_filenames(gs),
        same_fragments(fs, gs),
        forall|k: int| 0 <= k < done.len() ==> 0 <= #[trigger] done[k] < fs.len(),
        0 <= i < fs.len(),
    ensures
        is_ready(fs, done, i) == is_ready(gs, places(fs, gs, done), place(fs, gs, i)),
{
    let moved = places(fs, gs, done);
    assert forall|t: int| 0 <= t < fs.len() implies #[trigger] done.contains(t) == moved.contains(
        place(fs, gs, t),
    ) by {
        lemma_place(fs, gs, t);
        if done.contains(t) {
            let k = done.index_of(t);
            assert(moved[k] == place(fs, gs, t));
        }
        if moved.contains(place(fs, gs, t)) {
            let k = moved.index_of(place(fs, gs, t));
            lemma_place(fs, gs, done[k]);
            assert(done[k] == t);
        }
    }
    lemma_place(fs, gs, i);
    let a = place(fs, gs, i);
    if is_ready(fs, done, i) {
        assert(done.contains(i) == moved.contains(a));
        assert forall|u: int| #[trigger] needs(gs, a, u) implies moved.contains(u) by {
            let t = place(gs, fs, u);
            lemma_place(gs, fs, u);
            lemma_place(fs, gs, t);
            lemma_needs_move(fs, gs, i, t);
            assert(done.contains(t));
        }
    }
    if is_ready(gs, moved, a) {
        assert(done.contains(i) == moved.contains(a));
        assert forall|t: int| #[trigger] needs(fs, i, t) implies done.contains(t) by {
            lemma_needs_move(fs, gs, i, t);
            assert(moved.contains(place(fs, gs, t)));
            assert(done.contains(t) == moved.contains(place(fs, gs, t)));
        }
    }
}

/// Whether the fragment at `i` lists another one, at `t`, among its dependencies: by its
/// identifier, or by its file name, where no later fragment has that name.
pub open spec fn lists(fs: Seq<FragmentView>, i: int, t: int) -> bool {
    &&& 0 <= i < fs.len() && 0 <= t < fs.len() && i != t
    &&& {
        ||| fs[i].dependencies.contains(DependencyView::Id(fs[t].id))
        ||| fs[i].dependencies.contains(DependencyView::Filename(fs[t].filename)) && forall|u: int|
            t < u < fs.len() ==> (#[trigger] fs[u]).filename != fs[t].filename
    }
}

/// A fragment waits for those that it lists, for each of them and for no others.
pub proof fn law_every_listed_fragment_is_needed(fs: Seq<FragmentView>, i: int, t: int)
    ensures
        needs(fs, i, t) <==> lists(fs, i, t),
{
    if needs(fs, i, t) {
        let d = choose|d: int|
            0 <= d < fs[i].dependencies.len() && names(fs, #[trigger] fs[i].dependencies[d], t);
        assert(fs[i].dependencies.contains(fs[i].dependencies[d]));
    }
    if lists(fs, i, t) {
        let deps = fs[i].dependencies;
        if deps.contains(DependencyView::Id(fs[t].id)) {
            let d = deps.index_of(DependencyView::Id(fs[t].id));
            assert(names(fs, deps[d], t));
        } else {
            let d = deps.index_of(DependencyView::Filename(fs[t].filename));
            assert(names(fs, deps[d], t));
        }
    }
}

/// Wherever in its list of dependencies a sorted fragment names another one, by identifier
/// or by file name, that one stands before it.
pub proof fn law_each_dependency_comes_first(fs: Seq<FragmentView>, a: int, b: int, d: int)
    requires
        0 <= a < pick(fs, apply_order(fs)).len(),
        0 <= b < pick(fs, apply_order(fs)).len(),
        a != b,
        0 <= d < pick(fs, apply_order(fs))[b].dependencies.len(),
    ensures
        pick(fs, apply_order(fs))[b].dependencies[d] == DependencyView::Id(
            pick(fs, apply_order(fs))[a].id,
        ) ==> a < b,
        distinct_filenames(fs) && pick(fs, apply_order(fs))[b].dependencies[d]
            == DependencyView::Filename(pick(fs, apply_order(fs))[a].filename) ==> a < b,
{
    let order = apply_order(fs);
    let (i, t) = (order[b], order[a]);
    law_placed_or_stuck(fs);
    assert(order[a] != order[b]);
    let dep = fs[i].dependencies[d];
    assert(fs[i].dependencies.contains(dep));
    if dep == DependencyView::Id(fs[t].id) {
        law_every_listed_fragment_is_needed(fs, i, t);
        law_prerequisites_first(fs, a, b);
    }
    if distinct_filenames(fs) && dep == DependencyView::Filename(fs[t].filename) {
        assert forall|u: int| t < u < fs.len() implies (#[trigger] fs[u]).filename
            != fs[t].filename by {}
        law_every_listed_fragment_is_needed(fs, i, t);
        law_prerequisites_first(fs, a, b);
    }
}

/// Sorting loses nothing and makes nothing up: where it succeeds, each fragment has exactly
/// one place.
pub proof fn law_sorting_rearranges(fs: Seq<FragmentView>)
    requires
        is_acyclic(fs),
    ensures
        apply_order(fs).len() == fs.len(),
        apply_order(fs).no_duplicates(),
        forall|i: int| 0 <= i < fs.len() ==> #[trigger] apply_order(fs).contains(i),
        pick(fs, apply_order(fs)).len() == fs.len(),
        forall|k: int|
            0 <= k < fs.len() ==> (#[trigger] pick(fs, apply_order(fs))[k]) == fs[apply_order(
                fs,
            )[k]],
{
    law_placed_or_stuck(fs);
    lemma_apply_order(fs);
    lemma_covers(fs, apply_order(fs));
}

/// Sorting fails where fragments list each other in a circle.
pub proof fn law_circles_cannot_be_sorted(fs: Seq<FragmentView>, circle: Seq<int>)
    requires
        circle.len() > 0,
        forall|k: int|
            0 <= k < circle.len() - 1 ==> lists(fs, #[trigger] circle[k], circle[k + 1]),
        lists(fs, circle.last(), circle[0]),
    ensures
        !is_acyclic(fs),
        forall|k: int|
            0 <= k < circle.len() ==> stuck_names(fs, fs.len()).contains(
                fs[#[trigger] circle[k]].filename,
            ),
{
    law_every_listed_fragment_is_needed(fs, circle.last(), circle[0]);
    assert forall|k: int| 0 <= k < circle.len() - 1 implies needs(
        fs,
        #[trigger] circle[k],
        circle[k + 1],
    ) by {
        law_every_listed_fragment_is_needed(fs, circle[k], circle[k + 1]);
    }
    assert(is_circle(fs, circle));
    law_circle_is_stuck(fs, circle, 0);
    assert forall|k: int| 0 <= k < circle.len() implies stuck_names(fs, fs.len()).contains(
        fs[#[trigger] circle[k]].filename,
    ) by {
        law_circle_is_stuck(fs, circle, k);
        if k < circle.len() - 1 {
            assert(needs(fs, circle[k], circle[k + 1]));
        }
        lemma_stuck_names(fs, fs.len(), fs[circle[k]].filename);
    }
}

/// Sorting fails for no other reason: where it does, some fragments list each other in a
/// circle.
pub proof fn law_only_circles_cannot_be_sorted(fs: Seq<FragmentView>) -> (circle: Seq<int>)
    requires
        !is_acyclic(fs),
    ensures
        circle.len() > 0,
        forall|k: int|
            0 <= k < circle.len() - 1 ==> lists(fs, #[trigger] circle[k], circle[k + 1]),
        lists(fs, circle.last(), circle[0]),
{
    let i = choose|i: int| 0 <= i < fs.len() && is_stuck(fs, i);
    let circle = law_stuck_has_circle(fs, i);
    law_every_listed_fragment_is_needed(fs, circle.last(), circle[0]);
    assert forall|k: int| 0 <= k < circle.len() - 1 implies lists(
        fs,
        #[trigger] circle[k],
        circle[k + 1],
    ) by {
        assert(needs(fs, circle[k], circle[k + 1]));
        law_every_listed_fragment_is_needed(fs, circle[k], circle[k + 1]);
    }
    circle
}

/// The names in the error are those of the fragments from which one can go from listed
/// fragment to listed fragment without an end, each one once and in the order in which they
/// were found.
pub proof fn law_stuck_fragments_are_named(fs: Seq<FragmentView>) -> (r: Seq<int>)
    ensures
        stuck_names(fs, fs.len()).len() == r.len(),
        forall|k: int|
            0 <= k < r.len() ==> 0 <= #[trigger] r[k] < fs.len() && stuck_names(fs, fs.len())[k]
                == fs[r[k]].filename,
        forall|j: int, k: int| 0 <= j < k < r.len() ==> #[trigger] r[j] < #[trigger] r[k],
        forall|i: int|
            #![trigger r.contains(i)]
            0 <= i < fs.len() ==> (r.contains(i) <==> exists|walk: Seq<int>|
                walk.len() == fs.len() + 1 && walk[0] == i && is_walk(fs, walk)),
{
    let r = lemma_stuck_positions(fs, fs.len());
    assert forall|i: int|
        #![trigger r.contains(i)]
        0 <= i < fs.len() implies (r.contains(i) <==> exists|walk: Seq<int>|
        walk.len() == fs.len() + 1 && walk[0] == i && is_walk(fs, walk)) by {
        if is_stuck(fs, i) {
            reveal(is_stuck);
            let s = choose|s: Set<int>| #[trigger] s.contains(i) && is_knot(fs, s);
            lemma_chain_start(fs, s, i, fs.len());
            let walk = choose|walk: Seq<int>|
                walk.len() == fs.len() + 1 && walk[0] == i && is_walk(fs, walk) && s.contains(
                    walk.last(),
                );
            assert(walk.len() == fs.len() + 1 && walk[0] == i && is_walk(fs, walk));
        }
        if exists|walk: Seq<int>|
            walk.len() == fs.len() + 1 && walk[0] == i && is_walk(fs, walk) {
            let walk = choose|walk: Seq<int>|
                walk.len() == fs.len() + 1 && walk[0] == i && is_walk(fs, walk);
            lemma_long_walk_is_stuck(fs, walk);
        }
    }
    r
}

/// Whether each position of `walk` lists the next one.
pub open spec fn is_walk(fs: Seq<FragmentView>, walk: Seq<int>) -> bool {
    forall|k: int| 0 <= k < walk.len() - 1 ==> lists(fs, #[trigger] walk[k], walk[k + 1])
}

proof fn lemma_stuck_positions(fs: Seq<FragmentView>, n: nat) -> (r: Seq<int>)
    requires
        n <= fs.len(),
    ensures
        stuck_names(fs, n).len() == r.len(),
        forall|k: int|
            0 <= k < r.len() ==> 0 <= #[trigger] r[k] < n && stuck_names(fs, n)[k]
                == fs[r[k]].filename,
        forall|j: int, k: int| 0 <= j < k < r.len() ==> #[trigger] r[j] < #[trigger] r[k],
        forall|i: int| 0 <= i < n ==> (#[trigger] r.contains(i) <==> is_stuck(fs, i)),
    decreases n,
{
    if n == 0 {
        seq![]
    } else {
        let m = (n - 1) as nat;
        let head = lemma_stuck_positions(fs, m);
        let r = if is_stuck(fs, n - 1) {
            head.push(n - 1)
        } else {
            head
        };
        assert forall|i: int| 0 <= i < n implies (#[trigger] r.contains(i) <==> is_stuck(
            fs,
            i,
        )) by {
            if i < m {
                assert(head.contains(i) <==> is_stuck(fs, i));
                if head.contains(i) {
                    assert(r[head.index_of(i)] == i);
                }
                if r.contains(i) {
                    let k = r.index_of(i);
                    assert(head[k] == i);
                }
            } else {
                if is_stuck(fs, i) {
                    assert(r[head.len() as int] == i);
                }
                if r.contains(i) && !is_stuck(fs, i) {
                    assert(head[r.index_of(i)] == i);
                }
            }
        }
        assert forall|k: int| 0 <= k < r.len() implies 0 <= #[trigger] r[k] < n && stuck_names(
            fs,
            n,
        )[k] == fs[r[k]].filename by {
            if k < head.len() {
                assert(r[k] == head[k]);
                assert(stuck_names(fs, n)[k] == stuck_names(fs, m)[k]);
            }
        }
        assert forall|j: int, k: int| 0 <= j < k < r.len() implies #[trigger] r[j]
            < #[trigger] r[k] by {
            assert(r[j] == head[j]);
            if k < head.len() {
                assert(r[k] == head[k]);
            }
        }
        r
    }
}

proof fn lemma_chain_start(fs: Seq<FragmentView>, s: Set<int>, i: int, n: nat)
    requires
        is_knot(fs, s),
        s.contains(i),
    ensures
        exists|walk: Seq<int>|
            walk.len() == n + 1 && walk[0] == i && is_walk(fs, walk) && s.contains(walk.last()),
    decreases n,
{
    if n == 0 {
        let walk = seq![i];
        assert(walk.len() == 1 && walk[0] == i && is_walk(fs, walk) && s.contains(walk.last()));
    } else {
        lemma_chain_start(fs, s, i, (n - 1) as nat);
        let prev = choose|walk: Seq<int>|
            walk.len() == n && walk[0] == i && is_walk(fs, walk) && s.contains(walk.last());
        let t = lemma_knot_step(fs, s, prev.last());
        law_every_listed_fragment_is_needed(fs, prev.last(), t);
        let walk = prev.push(t);
        assert forall|k: int| 0 <= k < walk.len() - 1 implies lists(
            fs,
            #[trigger] walk[k],
            walk[k + 1],
        ) by {
            if k < n - 1 {
                assert(lists(fs, prev[k], prev[k + 1]));
            }
        }
        assert(walk.len() == n + 1 && walk[0] == i && is_walk(fs, walk) && s.contains(walk.last()));
    }
}

proof fn lemma_long_walk_is_stuck(fs: Seq<FragmentView>, walk: Seq<int>)
    requires
        walk.len() == fs.len() + 1,
        is_walk(fs, walk),
        0 <= walk[0] < fs.len(),
    ensures
        is_stuck(fs, walk[0]),
{
    reveal(is_stuck);
    reveal(is_knot);
    assert forall|k: int| 0 <= k < walk.len() implies 0 <= #[trigger] walk[k] < fs.len() by {
        if k > 0 {
            assert(lists(fs, walk[k - 1], walk[k - 1 + 1]));
        }
    }
    if walk.no_duplicates() {
        lemma_chain_bound(fs, walk);
    }
    let (a, b) = choose|a: int, b: int|
        0 <= a < walk.len() && 0 <= b < walk.len() && a != b && walk[a] == walk[b];
    let (lo, hi) = if a < b {
        (a, b)
    } else {
        (b, a)
    };
    let part = walk.take(hi);
    let s = part.to_set();
    assert forall|i: int| #[trigger] s.contains(i) implies exists|t: int|
        needs(fs, i, t) && s.contains(t) by {
        assert(part.contains(i));
        let k = part.index_of(i);
        assert(lists(fs, walk[k], walk[k + 1]));
        law_every_listed_fragment_is_needed(fs, walk[k], walk[k + 1]);
        if k + 1 < hi {
            assert(part[k + 1] == walk[k + 1]);
            assert(part.contains(walk[k + 1]));
        } else {
            assert(part[lo] == walk[hi]);
            assert(part.contains(walk[hi]));
        }
        assert(s.contains(walk[k + 1]));
    }
    assert(part[0] == walk[0]);
    assert(part.contains(walk[0]));
    assert(s.contains(walk[0]));
    assert(is_knot(fs, s));
}

/// Where prerequisites leave a choice, fragments come by identifier and then by file name: one
/// that stands after a fragment with a greater identifier, or with the same one and a greater
/// file name, lists a fragment that stands between them, or that other one.
pub proof fn law_identifiers_decide(fs: Seq<FragmentView>, a: int, b: int)
    requires
        0 <= a < b < apply_order(fs).len(),
        ({
            let (f, g) = (pick(fs, apply_order(fs))[a], pick(fs, apply_order(fs))[b]);
            id_less(g.id, f.id) || g.id == f.id && text_less(g.filename, f.filename)
        }),
    ensures
        exists|c: int|
            a <= c < b && {
                let deps = pick(fs, apply_order(fs))[b].dependencies;
                let f = #[trigger] pick(fs, apply_order(fs))[c];
                deps.contains(DependencyView::Id(f.id)) || deps.contains(
                    DependencyView::Filename(f.filename),
                )
            },
{
    let order = apply_order(fs);
    let sorted = pick(fs, order);
    assert(sorted[a] == fs[order[a]] && sorted[b] == fs[order[b]]);
    assert(key_less(fs, order[b], order[a]));
    law_tiebreaker_decides(fs, a, b);
    let t = choose|t: int| #[trigger] needs(fs, order[b], t) && !order.take(a).contains(t);
    lemma_apply_order(fs);
    assert(is_next(fs, order.take(b), order[b]));
    assert(order.take(b).contains(t));
    let c = order.take(b).index_of(t);
    assert(order[c] == t);
    if c < a {
        assert(order.take(a)[c] == t);
    }
    law_every_listed_fragment_is_needed(fs, order[b], t);
    assert(sorted[c] == fs[t]);
}

/// Fragments that list none of the others come by identifier and then by file name.
pub proof fn law_independent_fragments_ascend(fs: Seq<FragmentView>, a: int, b: int)
    requires
        forall|i: int, t: int| !#[trigger] lists(fs, i, t),
        0 <= a < b < fs.len(),
    ensures
        apply_order(fs).len() == fs.len(),
        ({
            let (f, g) = (pick(fs, apply_order(fs))[a], pick(fs, apply_order(fs))[b]);
            id_less(f.id, g.id) || f.id == g.id && (text_less(f.filename, g.filename) || f.filename
                == g.filename)
        }),
{
    assert forall|i: int, t: int| !needs(fs, i, t) by {
        law_every_listed_fragment_is_needed(fs, i, t);
        assert(!lists(fs, i, t));
    }
    law_missing_prerequisites_count_as_applied(fs);
    let order = apply_order(fs);
    assert(key_less(fs, order[a], order[b]));
}

/// A prerequisite that no fragment bears, as identifier or as file name, is noted, with the
/// fragment that declares it.
pub proof fn law_missing_prerequisites_are_noted(fs: Seq<FragmentView>, i: int, d: int)
    requires
        0 <= i < fs.len(),
        0 <= d < fs[i].dependencies.len(),
    ensures
        ({
            let dep = fs[i].dependencies[d];
            let missing = forall|t: int|
                0 <= t < fs.len() ==> dep != DependencyView::Id((#[trigger] fs[t]).id) && dep
                    != DependencyView::Filename(fs[t].filename);
            missing ==> missing_notes(fs, fs.len()).contains(
                "fragment `"@ + fs[i].filename + "` declares prerequisite `"@ + dependency_text(dep)
                    + "`, which was not found in unreleased fragments (assuming already applied in previous release)"@,
            )
        }),
        missing_notes_of(fs, fs[i], (d + 1) as nat).len() == missing_notes_of(
            fs,
            fs[i],
            d as nat,
        ).len() + (if exists|t: int|
            0 <= t < fs.len() && (fs[i].dependencies[d] == DependencyView::Id((#[trigger] fs[t]).id)
                || fs[i].dependencies[d] == DependencyView::Filename(fs[t].filename)) {
            0int
        } else {
            1int
        }),
{
    let dep = fs[i].dependencies[d];
    lemma_is_listed(fs, dep);
    let missing = forall|t: int|
        0 <= t < fs.len() ==> dep != DependencyView::Id((#[trigger] fs[t]).id) && dep
            != DependencyView::Filename(fs[t].filename);
    if missing {
        assert(!is_listed(fs, dep));
        let note = missing_note(fs[i], dep);
        lemma_note_is_kept(fs, fs[i], (d + 1) as nat, fs[i].dependencies.len(), note);
        lemma_notes_are_kept(fs, i, fs.len(), note);
    }
}

proof fn lemma_is_listed(fs: Seq<FragmentView>, dep: DependencyView)
    ensures
        is_listed(fs, dep) <==> exists|t: int|
            0 <= t < fs.len() && (dep == DependencyView::Id((#[trigger] fs[t]).id) || dep
                == DependencyView::Filename(fs[t].filename)),
{
    if is_listed(fs, dep) {
        let t = choose|t: int| 0 <= t < fs.len() && #[trigger] names(fs, dep, t);
        assert(dep == DependencyView::Id(fs[t].id) || dep == DependencyView::Filename(
            fs[t].filename,
        ));
    }
    if exists|t: int|
        0 <= t < fs.len() && (dep == DependencyView::Id((#[trigger] fs[t]).id) || dep
            == DependencyView::Filename(fs[t].filename)) {
        let t = choose|t: int|
            0 <= t < fs.len() && (dep == DependencyView::Id((#[trigger] fs[t]).id) || dep
                == DependencyView::Filename(fs[t].filename));
        if dep is Id {
            assert(names(fs, dep, t));
        } else {
            lemma_last_of_name(fs, fs[t].filename, t);
        }
    }
}

proof fn lemma_last_of_name(fs: Seq<FragmentView>, name: Seq<char>, t: int)
    requires
        0 <= t < fs.len(),
        fs[t].filename == name,
    ensures
        exists|u: int| 0 <= u < fs.len() && #[trigger] names(fs, DependencyView::Filename(name), u),
    decreases fs.len() - t,
{
    if exists|u: int| t < u < fs.len() && (#[trigger] fs[u]).filename == name {
        let u = choose|u: int| t < u < fs.len() && (#[trigger] fs[u]).filename == name;
        lemma_last_of_name(fs, name, u);
    } else {
        assert(names(fs, DependencyView::Filename(name), t));
    }
}

proof fn lemma_note_is_kept(
    fs: Seq<FragmentView>,
    f: FragmentView,
    m: nat,
    n: nat,
    note: Seq<char>,
)
    requires
        m <= n,
        missing_notes_of(fs, f, m).contains(note) || m > 0 && !is_listed(fs, f.dependencies[m - 1])
            && note == missing_note(f, f.dependencies[m - 1]),
    ensures
        missing_notes_of(fs, f, n).contains(note),
    decreases n,
{
    if m == n {
        if m > 0 && !is_listed(fs, f.dependencies[m - 1]) && note == missing_note(
            f,
            f.dependencies[m - 1],
        ) {
            let all = missing_notes_of(fs, f, n);
            assert(all[all.len() - 1] == note);
        }
    } else {
        lemma_note_is_kept(fs, f, m, (n - 1) as nat, note);
        let earlier = missing_notes_of(fs, f, (n - 1) as nat);
        let all = missing_notes_of(fs, f, n);
        assert(all[earlier.index_of(note)] == note);
    }
}

proof fn lemma_notes_are_kept(fs: Seq<FragmentView>, i: int, n: nat, note: Seq<char>)
    requires
        0 <= i < n <= fs.len(),
        missing_notes_of(fs, fs[i], fs[i].dependencies.len()).contains(note),
    ensures
        missing_notes(fs, n).contains(note),
    decreases n,
{
    let earlier = missing_notes(fs, (n - 1) as nat);
    let own = missing_notes_of(fs, fs[n - 1], fs[n - 1].dependencies.len());
    let all = missing_notes(fs, n);
    if i == n - 1 {
        assert(all[earlier.len() + own.index_of(note)] == note);
    } else {
        lemma_notes_are_kept(fs, i, (n - 1) as nat, note);
        assert(all[earlier.index_of(note)] == note);
    }
}

}
