//! The index of the paths seen so far.

use vstd::prelude::*;
use crate::svgopt::fingerprint::{
    close, similar, PathCommand, PathFingerprint, PathFingerprintElement,
};

verus! {

/// Two sequences with the same first element and the same rest are
/// equal.
proof fn lemma_same_head_and_rest<T>(a: Seq<T>, b: Seq<T>)
    requires
        a.len() > 0,
        b.len() > 0,
        a[0] == b[0],
        a.skip(1) == b.skip(1),
    ensures
        a == b,
{
    assert(a.len() == a.skip(1).len() + 1);
    assert(b.len() == b.skip(1).len() + 1);
    assert forall|i: int| 0 <= i < a.len() implies a[i] == b[i] by {
        if i > 0 {
            assert(a[i] == a.skip(1)[i - 1]);
            assert(b[i] == b.skip(1)[i - 1]);
        }
    }
    assert(a =~= b);
}

/// The lists of `parts` one after the other.
pub open spec fn joined(parts: Seq<Seq<usize>>) -> Seq<usize>
    decreases parts.len(),
{
    if parts.len() == 0 {
        Seq::empty()
    } else {
        joined(parts.drop_last()) + parts.last()
    }
}

/// Empty lists at the end add nothing.
proof fn lemma_joined_tail(parts: Seq<Seq<usize>>, i: int)
    requires
        0 <= i <= parts.len(),
        forall|k: int| i <= k < parts.len() ==> (#[trigger] parts[k]).len() == 0,
    ensures
        joined(parts) == joined(parts.take(i)),
    decreases parts.len(),
{
    if i == parts.len() {
        assert(parts.take(i) =~= parts);
    } else {
        let head = parts.drop_last();
        assert(parts.last().len() == 0);
        assert(joined(parts) =~= joined(head));
        lemma_joined_tail(head, i);
        assert(head.take(i) =~= parts.take(i));
    }
}

/// Where all lists but one are empty, that one is the whole.
proof fn lemma_joined_single(parts: Seq<Seq<usize>>, i: int)
    requires
        0 <= i < parts.len(),
        forall|k: int| 0 <= k < parts.len() && k != i ==> (#[trigger] parts[k]).len() == 0,
    ensures
        joined(parts) == parts[i],
{
    let upto = parts.take(i + 1);
    lemma_joined_tail(parts, i + 1);
    assert(upto.drop_last() =~= parts.take(i));
    assert(upto.last() == parts[i]);
    lemma_joined_tail(parts.take(i), 0);
    assert(parts.take(i).take(0) =~= Seq::<Seq<usize>>::empty());
    assert(joined(upto) =~= parts[i]);
}

/// An empty list among the others adds nothing.
proof fn lemma_joined_insert_empty(parts: Seq<Seq<usize>>, at: int)
    requires
        0 <= at <= parts.len(),
    ensures
        joined(parts.insert(at, Seq::empty())) == joined(parts),
    decreases parts.len(),
{
    let more = parts.insert(at, Seq::empty());
    if at == parts.len() {
        assert(more.drop_last() =~= parts);
        assert(more.last().len() == 0);
        assert(joined(more) =~= joined(parts));
    } else {
        assert(more.drop_last() =~= parts.drop_last().insert(at, Seq::empty()));
        assert(more.last() == parts.last());
        lemma_joined_insert_empty(parts.drop_last(), at);
    }
}

/// A number put into one of the lists is put into the whole, behind all
/// that the lists before hold.
proof fn lemma_joined_grows(parts: Seq<Seq<usize>>, i: int, k: int, p: usize)
    requires
        0 <= i < parts.len(),
        0 <= k <= parts[i].len(),
    ensures
        joined(parts.take(i)).len() + parts[i].len() <= joined(parts).len(),
        joined(parts.update(i, parts[i].insert(k, p))) == joined(parts).insert(
            joined(parts.take(i)).len() + k,
            p,
        ),
    decreases parts.len(),
{
    let more = parts.update(i, parts[i].insert(k, p));
    let head = parts.drop_last();
    let place = joined(parts.take(i)).len() + k;
    if i == parts.len() - 1 {
        assert(head =~= parts.take(i));
        assert(more.drop_last() =~= head);
        assert(joined(more) =~= joined(parts).insert(place, p));
    } else {
        lemma_joined_grows(head, i, k, p);
        assert(head.take(i) =~= parts.take(i));
        assert(more.drop_last() =~= head.update(i, head[i].insert(k, p)));
        assert(more.last() == parts.last());
        assert(joined(more) =~= joined(parts).insert(place, p));
    }
}

/// The index of the paths seen so far. Each node branches on one element
/// of a fingerprint: on a command by equality, on a coordinate through
/// children kept in ascending order, so that all children within `eps` of a
/// coordinate are found by one binary search and a walk over neighbours.
/// A path is stored, by its number, at the node where its fingerprint ends.
pub struct PathTree {
    cmd_nodes: Vec<(PathCommand, PathTree)>,
    coord_nodes: Vec<(i64, PathTree)>,
    paths: Vec<usize>,
}

impl View for PathTree {
    type V = Set<(Seq<PathFingerprintElement>, usize)>;

    /// The pairs of a fingerprint and the number of a path inserted with
    /// it.
    closed spec fn view(&self) -> Set<(Seq<PathFingerprintElement>, usize)> {
        Set::new(|entry: (Seq<PathFingerprintElement>, usize)| self.holds(entry.0, entry.1))
    }
}

/// The numbers of the paths stored in `index` whose fingerprint matches
/// `query`.
pub open spec fn matching_paths(
    index: Set<(Seq<PathFingerprintElement>, usize)>,
    query: Seq<PathFingerprintElement>,
    eps: int,
) -> Set<usize> {
    Set::new(
        |id: usize|
            exists|key: Seq<PathFingerprintElement>|
                #[trigger] index.contains((key, id)) && similar(key, query, eps),
    )
}

/// `longer` is `shorter` with `path` put in somewhere, if `matches`; else
/// the two are the same.
pub open spec fn one_more(shorter: Seq<usize>, longer: Seq<usize>, matches: bool, path: usize) -> bool {
    if matches {
        exists|k: int| 0 <= k <= shorter.len() && longer == #[trigger] shorter.insert(k, path)
    } else {
        longer == shorter
    }
}

/// Every lookup in `after` lists what it lists in `before`, in the same
/// order, and `path` besides if the query matches `target`.
pub open spec fn lists_one_more(
    before: PathTree,
    after: PathTree,
    target: Seq<PathFingerprintElement>,
    path: usize,
) -> bool {
    forall|query: Seq<PathFingerprintElement>, eps: int|
        one_more(
            before.listing(query, eps),
            #[trigger] after.listing(query, eps),
            similar(target, query, eps),
            path,
        )
}

/// Two fingerprints match if their first elements agree and the rest
/// matches.
proof fn lemma_similar_split(
    a: Seq<PathFingerprintElement>,
    b: Seq<PathFingerprintElement>,
    eps: int,
)
    requires
        a.len() > 0,
        b.len() > 0,
    ensures
        similar(a, b, eps) <==> close(a[0], b[0], eps) && similar(a.skip(1), b.skip(1), eps),
{
    if similar(a, b, eps) {
        assert(close(a[0], b[0], eps));
        assert forall|i: int| 0 <= i < a.skip(1).len() implies close(
            #[trigger] a.skip(1)[i],
            b.skip(1)[i],
            eps,
        ) by {
            assert(close(a[i + 1], b[i + 1], eps));
        }
    }
    if close(a[0], b[0], eps) && similar(a.skip(1), b.skip(1), eps) {
        assert forall|i: int| 0 <= i < a.len() implies close(#[trigger] a[i], b[i], eps) by {
            if i > 0 {
                assert(close(a.skip(1)[i - 1], b.skip(1)[i - 1], eps));
            }
        }
    }
}

/// With no tolerance two fingerprints match only if they are the same.
pub proof fn lemma_exact_match(a: Seq<PathFingerprintElement>, b: Seq<PathFingerprintElement>)
    ensures
        similar(a, b, 0) <==> a == b,
{
    if similar(a, b, 0) {
        assert forall|i: int| 0 <= i < a.len() implies a[i] == b[i] by {
            assert(close(a[i], b[i], 0));
        }
        assert(a =~= b);
    }
    if a == b {
        assert forall|i: int| 0 <= i < a.len() implies close(#[trigger] a[i], b[i], 0) by {
            match a[i] {
                PathFingerprintElement::Command(c) => {},
                PathFingerprintElement::Coord(x) => {},
            }
        }
    }
}

/// The first path that is stored under a fingerprint is all that a
/// matching lookup lists: where a lookup listed nothing and the index has
/// grown by `path` under a fingerprint that the query matches, it lists
/// `path` and nothing else.
pub proof fn lemma_first_path_listed(
    before: PathTree,
    after: PathTree,
    target: Seq<PathFingerprintElement>,
    path: usize,
    query: Seq<PathFingerprintElement>,
    eps: int,
)
    requires
        lists_one_more(before, after, target, path),
        before.listing(query, eps).len() == 0,
        similar(target, query, eps),
    ensures
        after.listing(query, eps) == seq![path],
{
    let shorter = before.listing(query, eps);
    let longer = after.listing(query, eps);
    assert(one_more(shorter, longer, true, path));
    let k = choose|k: int| 0 <= k <= shorter.len() && longer == #[trigger] shorter.insert(k, path);
    assert(shorter.insert(k, path) =~= seq![path]);
}

/// No path is listed twice as long as no path is stored twice: where a
/// lookup listed every path once and did not list `path`, it lists every
/// path once after `path` was stored.
pub proof fn lemma_listed_once(
    before: PathTree,
    after: PathTree,
    target: Seq<PathFingerprintElement>,
    path: usize,
    query: Seq<PathFingerprintElement>,
    eps: int,
)
    requires
        lists_one_more(before, after, target, path),
        before.listing(query, eps).no_duplicates(),
        !before.listing(query, eps).contains(path),
    ensures
        after.listing(query, eps).no_duplicates(),
{
    let shorter = before.listing(query, eps);
    let longer = after.listing(query, eps);
    assert(one_more(shorter, longer, similar(target, query, eps), path));
    if similar(target, query, eps) {
        let k = choose|k: int|
            0 <= k <= shorter.len() && longer == #[trigger] shorter.insert(k, path);
        assert forall|i: int, j: int| 0 <= i < longer.len() && 0 <= j < longer.len() && i != j
            implies longer[i] != longer[j] by {
            let a = if i < k { i } else { i - 1 };
            let b = if j < k { j } else { j - 1 };
            if i != k {
                assert(longer[i] == shorter[a]);
                assert(shorter.contains(shorter[a]));
            }
            if j != k {
                assert(longer[j] == shorter[b]);
                assert(shorter.contains(shorter[b]));
            }
        }
    }
}

/// `x - eps`, or the nearest number that fits.
fn lower_bound_of(x: i64, eps: i64) -> (low: i64)
    ensures
        x - eps < i64::MIN ==> low == i64::MIN,
        x - eps > i64::MAX ==> low == i64::MAX,
        i64::MIN <= x - eps <= i64::MAX ==> low == x - eps,
{
    match x.checked_sub(eps) {
        Some(low) => low,
        None => if eps > 0 { i64::MIN } else { i64::MAX },
    }
}

/// `x + eps`, or the nearest number that fits.
fn upper_bound_of(x: i64, eps: i64) -> (high: i64)
    ensures
        x + eps > i64::MAX ==> high == i64::MAX,
        x + eps < i64::MIN ==> high == i64::MIN,
        i64::MIN <= x + eps <= i64::MAX ==> high == x + eps,
{
    match x.checked_add(eps) {
        Some(high) => high,
        None => if eps > 0 { i64::MAX } else { i64::MIN },
    }
}

impl PathTree {
    /// The path `id` is stored under the fingerprint `key`.
    closed spec fn holds(&self, key: Seq<PathFingerprintElement>, id: usize) -> bool
        decreases key.len(),
    {
        if key.len() == 0 {
            self.paths@.contains(id)
        } else {
            match key[0] {
                PathFingerprintElement::Command(c) => exists|i: int|
                    0 <= i < self.cmd_nodes.len() && (#[trigger] self.cmd_nodes[i]).0 == c
                        && self.cmd_nodes[i].1.holds(key.skip(1), id),
                PathFingerprintElement::Coord(x) => exists|i: int|
                    0 <= i < self.coord_nodes.len() && (#[trigger] self.coord_nodes[i]).0 == x
                        && self.coord_nodes[i].1.holds(key.skip(1), id),
            }
        }
    }

    /// The path `id` is stored under a fingerprint that matches `query`.
    closed spec fn finds(&self, query: Seq<PathFingerprintElement>, eps: int, id: usize) -> bool
        decreases query.len(),
    {
        if query.len() == 0 {
            self.paths@.contains(id)
        } else {
            match query[0] {
                PathFingerprintElement::Command(c) => exists|i: int|
                    0 <= i < self.cmd_nodes.len() && (#[trigger] self.cmd_nodes[i]).0 == c
                        && self.cmd_nodes[i].1.finds(query.skip(1), eps, id),
                PathFingerprintElement::Coord(x) => exists|i: int|
                    0 <= i < self.coord_nodes.len() && x - eps <= (#[trigger] self.coord_nodes[i]).0
                        <= x + eps && self.coord_nodes[i].1.finds(query.skip(1), eps, id),
            }
        }
    }

    /// What a lookup of `query` lists. Where the query ends at this node,
    /// these are the paths stored here, in the order in which they were
    /// inserted. Else it is what the children that match the first element
    /// of the query list for the rest of it, child after child.
    pub closed spec fn listing(&self, query: Seq<PathFingerprintElement>, eps: int) -> Seq<usize>
        decreases query.len(), 0int,
    {
        if query.len() == 0 {
            self.paths@
        } else {
            match query[0] {
                PathFingerprintElement::Command(c) => joined(
                    self.cmd_parts(c, query.skip(1), eps),
                ),
                PathFingerprintElement::Coord(x) => joined(self.coord_parts(x, query.skip(1), eps)),
            }
        }
    }

    /// What each command child lists for `rest`, if its command is `c`.
    closed spec fn cmd_parts(
        &self,
        c: PathCommand,
        rest: Seq<PathFingerprintElement>,
        eps: int,
    ) -> Seq<Seq<usize>>
        decreases rest.len(), 1int,
    {
        Seq::new(
            self.cmd_nodes.len() as nat,
            |k: int|
                if self.cmd_nodes[k].0 == c {
                    self.cmd_nodes[k].1.listing(rest, eps)
                } else {
                    Seq::empty()
                },
        )
    }

    /// What each coordinate child lists for `rest`, if its coordinate is
    /// within `eps` of `x`.
    closed spec fn coord_parts(
        &self,
        x: i64,
        rest: Seq<PathFingerprintElement>,
        eps: int,
    ) -> Seq<Seq<usize>>
        decreases rest.len(), 1int,
    {
        Seq::new(
            self.coord_nodes.len() as nat,
            |k: int|
                if x - eps <= self.coord_nodes[k].0 <= x + eps {
                    self.coord_nodes[k].1.listing(rest, eps)
                } else {
                    Seq::empty()
                },
        )
    }

    /// The children of every node are in order: no command twice, the
    /// coordinates strictly ascending.
    pub closed spec fn wf(&self) -> bool
        decreases self,
    {
        &&& forall|i: int, j: int|
            0 <= i < j < self.cmd_nodes.len() ==> (#[trigger] self.cmd_nodes[i]).0 != (
            #[trigger] self.cmd_nodes[j]).0
        &&& forall|i: int, j: int|
            0 <= i < j < self.coord_nodes.len() ==> (#[trigger] self.coord_nodes[i]).0 < (
            #[trigger] self.coord_nodes[j]).0
        &&& forall|i: int| 0 <= i < self.cmd_nodes.len() ==> (#[trigger] self.cmd_nodes[i]).1.wf()
        &&& forall|i: int|
            0 <= i < self.coord_nodes.len() ==> (#[trigger] self.coord_nodes[i]).1.wf()
    }

    /// What is stored under a matching fingerprint is what a walk along the
    /// query finds.
    proof fn lemma_finds(&self, query: Seq<PathFingerprintElement>, eps: int, id: usize)
        ensures
            self.finds(query, eps, id) <==> exists|key: Seq<PathFingerprintElement>|
                #[trigger] self.holds(key, id) && similar(key, query, eps),
        decreases query.len(),
    {
        if query.len() == 0 {
            if self.finds(query, eps, id) {
                assert(self.holds(query, id) && similar(query, query, eps));
            }
            if exists|key: Seq<PathFingerprintElement>|
                #[trigger] self.holds(key, id) && similar(key, query, eps) {
                let key = choose|key: Seq<PathFingerprintElement>|
                    #[trigger] self.holds(key, id) && similar(key, query, eps);
                assert(key.len() == 0);
            }
        } else {
            let rest = query.skip(1);
            if self.finds(query, eps, id) {
                match query[0] {
                    PathFingerprintElement::Command(c) => {
                        let i = choose|i: int|
                            0 <= i < self.cmd_nodes.len() && (#[trigger] self.cmd_nodes[i]).0 == c
                                && self.cmd_nodes[i].1.finds(rest, eps, id);
                        self.cmd_nodes[i].1.lemma_finds(rest, eps, id);
                        let sub = choose|key: Seq<PathFingerprintElement>|
                            #[trigger] self.cmd_nodes[i].1.holds(key, id) && similar(key, rest, eps);
                        let key = seq![query[0]] + sub;
                        assert(key.skip(1) =~= sub);
                        assert(self.cmd_nodes[i].0 == c && self.cmd_nodes[i].1.holds(
                            key.skip(1),
                            id,
                        ));
                        assert(self.holds(key, id));
                        assert forall|k: int| 0 <= k < key.len() implies close(
                            #[trigger] key[k],
                            query[k],
                            eps,
                        ) by {
                            if k > 0 {
                                assert(key[k] == sub[k - 1]);
                                assert(query[k] == rest[k - 1]);
                            }
                        }
                        assert(similar(key, query, eps));
                    },
                    PathFingerprintElement::Coord(x) => {
                        let i = choose|i: int|
                            0 <= i < self.coord_nodes.len() && x - eps <= (
                            #[trigger] self.coord_nodes[i]).0 <= x + eps
                                && self.coord_nodes[i].1.finds(rest, eps, id);
                        self.coord_nodes[i].1.lemma_finds(rest, eps, id);
                        let sub = choose|key: Seq<PathFingerprintElement>|
                            #[trigger] self.coord_nodes[i].1.holds(key, id) && similar(
                                key,
                                rest,
                                eps,
                            );
                        let key = seq![PathFingerprintElement::Coord(self.coord_nodes[i].0)] + sub;
                        assert(key.skip(1) =~= sub);
                        assert(self.coord_nodes[i].0 == self.coord_nodes[i].0
                            && self.coord_nodes[i].1.holds(key.skip(1), id));
                        assert(self.holds(key, id));
                        assert forall|k: int| 0 <= k < key.len() implies close(
                            #[trigger] key[k],
                            query[k],
                            eps,
                        ) by {
                            if k > 0 {
                                assert(key[k] == sub[k - 1]);
                                assert(query[k] == rest[k - 1]);
                            }
                        }
                        assert(similar(key, query, eps));
                    },
                }
            }
            if exists|key: Seq<PathFingerprintElement>|
                #[trigger] self.holds(key, id) && similar(key, query, eps) {
                let key = choose|key: Seq<PathFingerprintElement>|
                    #[trigger] self.holds(key, id) && similar(key, query, eps);
                let sub = key.skip(1);
                assert(close(key[0], query[0], eps));
                assert forall|k: int| 0 <= k < sub.len() implies close(
                    #[trigger] sub[k],
                    rest[k],
                    eps,
                ) by {
                    assert(close(key[k + 1], query[k + 1], eps));
                }
                assert(similar(sub, rest, eps));
                match key[0] {
                    PathFingerprintElement::Command(c) => {
                        let i = choose|i: int|
                            0 <= i < self.cmd_nodes.len() && (#[trigger] self.cmd_nodes[i]).0 == c
                                && self.cmd_nodes[i].1.holds(sub, id);
                        self.cmd_nodes[i].1.lemma_finds(rest, eps, id);
                        assert(self.cmd_nodes[i].0 == c && self.cmd_nodes[i].1.finds(rest, eps, id));
                    },
                    PathFingerprintElement::Coord(x) => {
                        let i = choose|i: int|
                            0 <= i < self.coord_nodes.len() && (#[trigger] self.coord_nodes[i]).0
                                == x && self.coord_nodes[i].1.holds(sub, id);
                        self.coord_nodes[i].1.lemma_finds(rest, eps, id);
                        let q = query[0]->Coord_0;
                        assert(q - eps <= self.coord_nodes[i].0 <= q + eps
                            && self.coord_nodes[i].1.finds(rest, eps, id));
                    },
                }
            }
        }
    }

    /// An index that holds no path.
    pub fn new() -> (tree: PathTree)
        ensures
            tree.wf(),
            tree@ == Set::<(Seq<PathFingerprintElement>, usize)>::empty(),
            forall|query: Seq<PathFingerprintElement>, eps: int|
                (#[trigger] tree.listing(query, eps)).len() == 0,
    {
        let tree = PathTree { cmd_nodes: Vec::new(), coord_nodes: Vec::new(), paths: Vec::new() };
        proof {
            tree.lemma_empty();
            assert forall|query: Seq<PathFingerprintElement>, eps: int|
                (#[trigger] tree.listing(query, eps)).len() == 0 by {
                if query.len() > 0 {
                    match query[0] {
                        PathFingerprintElement::Command(c) => {
                            assert(tree.cmd_parts(c, query.skip(1), eps).len() == 0);
                        },
                        PathFingerprintElement::Coord(x) => {
                            assert(tree.coord_parts(x, query.skip(1), eps).len() == 0);
                        },
                    }
                }
            }
            assert(tree@ =~= Set::<(Seq<PathFingerprintElement>, usize)>::empty());
        }
        tree
    }

    /// A node without children and without paths holds nothing.
    proof fn lemma_empty(&self)
        requires
            self.cmd_nodes.len() == 0,
            self.coord_nodes.len() == 0,
            self.paths.len() == 0,
        ensures
            self.wf(),
            forall|key: Seq<PathFingerprintElement>, id: usize| !#[trigger] self.holds(key, id),
    {
    }

    /// The position of the first child whose coordinate is not below `x`.
    fn lower_bound(&self, x: i64) -> (at: usize)
        requires
            self.wf(),
        ensures
            at <= self.coord_nodes.len(),
            forall|i: int| 0 <= i < at ==> (#[trigger] self.coord_nodes[i]).0 < x,
            forall|i: int| at <= i < self.coord_nodes.len() ==> (#[trigger] self.coord_nodes[i]).0 >= x,
    {
        let mut low: usize = 0;
        let mut high: usize = self.coord_nodes.len();
        while low < high
            invariant
                low <= high <= self.coord_nodes.len(),
                self.wf(),
                forall|i: int| 0 <= i < low ==> (#[trigger] self.coord_nodes[i]).0 < x,
                forall|i: int|
                    high <= i < self.coord_nodes.len() ==> (#[trigger] self.coord_nodes[i]).0 >= x,
            decreases high - low,
        {
            let mid: usize = low + (high - low) / 2;
            if self.coord_nodes[mid].0 < x {
                assert forall|i: int| 0 <= i < mid + 1 implies (#[trigger] self.coord_nodes[i]).0
                    < x by {
                    if i < mid {
                        assert(self.coord_nodes[i].0 < self.coord_nodes[mid as int].0);
                    }
                }
                low = mid + 1;
            } else {
                assert forall|i: int| mid <= i < self.coord_nodes.len() implies (
                #[trigger] self.coord_nodes[i]).0 >= x by {
                    if i > mid {
                        assert(self.coord_nodes[mid as int].0 < self.coord_nodes[i].0);
                    }
                }
                high = mid;
            }
        }
        low
    }

    /// `after` holds what `before` holds and, besides, `path` under
    /// `target`.
    closed spec fn grown(
        before: PathTree,
        after: PathTree,
        target: Seq<PathFingerprintElement>,
        path: usize,
    ) -> bool {
        forall|key: Seq<PathFingerprintElement>, id: usize|
            #[trigger] after.holds(key, id) <==> before.holds(key, id) || (key == target && id
                == path)
    }

    /// `after` is `before` with other children under the same keys.
    closed spec fn same_shape(before: PathTree, after: PathTree) -> bool {
        &&& after.paths == before.paths
        &&& after.cmd_nodes.len() == before.cmd_nodes.len()
        &&& after.coord_nodes.len() == before.coord_nodes.len()
        &&& forall|k: int|
            0 <= k < before.cmd_nodes.len() ==> (#[trigger] after.cmd_nodes[k]).0
                == before.cmd_nodes[k].0
        &&& forall|k: int|
            0 <= k < before.coord_nodes.len() ==> (#[trigger] after.coord_nodes[k]).0
                == before.coord_nodes[k].0
    }

    /// A node with one more child, under which nothing is stored, holds
    /// what it held.
    proof fn lemma_empty_child(
        before: PathTree,
        after: PathTree,
        at: int,
        key: Seq<PathFingerprintElement>,
        id: usize,
    )
        requires
            after.paths == before.paths,
            ({
                &&& after.coord_nodes == before.coord_nodes
                &&& 0 <= at <= before.cmd_nodes.len()
                &&& after.cmd_nodes@ == before.cmd_nodes@.insert(at, after.cmd_nodes@[at])
                &&& forall|k: Seq<PathFingerprintElement>, i: usize|
                    !#[trigger] after.cmd_nodes@[at].1.holds(k, i)
            }) || ({
                &&& after.cmd_nodes == before.cmd_nodes
                &&& 0 <= at <= before.coord_nodes.len()
                &&& after.coord_nodes@ == before.coord_nodes@.insert(at, after.coord_nodes@[at])
                &&& forall|k: Seq<PathFingerprintElement>, i: usize|
                    !#[trigger] after.coord_nodes@[at].1.holds(k, i)
            }),
        ensures
            after.holds(key, id) <==> before.holds(key, id),
    {
        if key.len() > 0 {
            match key[0] {
                PathFingerprintElement::Command(d) => {
                    if after.holds(key, id) {
                        let k = choose|k: int|
                            0 <= k < after.cmd_nodes.len() && (#[trigger] after.cmd_nodes[k]).0 == d
                                && after.cmd_nodes[k].1.holds(key.skip(1), id);
                        if after.coord_nodes == before.coord_nodes {
                            let j = if k < at { k } else { k - 1 };
                            assert(before.cmd_nodes[j] == after.cmd_nodes[k]);
                        }
                    }
                    if before.holds(key, id) {
                        let k = choose|k: int|
                            0 <= k < before.cmd_nodes.len() && (#[trigger] before.cmd_nodes[k]).0
                                == d && before.cmd_nodes[k].1.holds(key.skip(1), id);
                        if after.coord_nodes == before.coord_nodes {
                            let j = if k < at { k } else { k + 1 };
                            assert(before.cmd_nodes[k] == after.cmd_nodes[j]);
                        } else {
                            assert(before.cmd_nodes[k] == after.cmd_nodes[k]);
                        }
                    }
                },
                PathFingerprintElement::Coord(x) => {
                    if after.holds(key, id) {
                        let k = choose|k: int|
                            0 <= k < after.coord_nodes.len() && (#[trigger] after.coord_nodes[k]).0
                                == x && after.coord_nodes[k].1.holds(key.skip(1), id);
                        if after.cmd_nodes == before.cmd_nodes {
                            let j = if k < at { k } else { k - 1 };
                            assert(before.coord_nodes[j] == after.coord_nodes[k]);
                        }
                    }
                    if before.holds(key, id) {
                        let k = choose|k: int|
                            0 <= k < before.coord_nodes.len() && (#[trigger] before.coord_nodes[k]).0
                                == x && before.coord_nodes[k].1.holds(key.skip(1), id);
                        if after.cmd_nodes == before.cmd_nodes {
                            let j = if k < at { k } else { k + 1 };
                            assert(before.coord_nodes[k] == after.coord_nodes[j]);
                        } else {
                            assert(before.coord_nodes[k] == after.coord_nodes[k]);
                        }
                    }
                },
            }
        }
    }

    /// A node one of whose command children has grown by a path has grown
    /// by that path under the longer fingerprint.
    proof fn lemma_grown_by_cmd(
        before: PathTree,
        after: PathTree,
        at: int,
        target: Seq<PathFingerprintElement>,
        path: usize,
        key: Seq<PathFingerprintElement>,
        id: usize,
    )
        requires
            before.wf(),
            PathTree::same_shape(before, after),
            after.coord_nodes == before.coord_nodes,
            0 <= at < before.cmd_nodes.len(),
            forall|k: int|
                0 <= k < before.cmd_nodes.len() && k != at ==> #[trigger] after.cmd_nodes[k]
                    == before.cmd_nodes[k],
            target.len() > 0,
            target[0] == PathFingerprintElement::Command(before.cmd_nodes[at].0),
            PathTree::grown(before.cmd_nodes[at].1, after.cmd_nodes[at].1, target.skip(1), path),
        ensures
            after.holds(key, id) <==> before.holds(key, id) || (key == target && id == path),
    {
        if key.len() > 0 {
            match key[0] {
                PathFingerprintElement::Command(d) => {
                    if after.holds(key, id) {
                        let k = choose|k: int|
                            0 <= k < after.cmd_nodes.len() && (#[trigger] after.cmd_nodes[k]).0 == d
                                && after.cmd_nodes[k].1.holds(key.skip(1), id);
                        if k == at {
                            if before.cmd_nodes[k].1.holds(key.skip(1), id) {
                                assert(before.cmd_nodes[k].0 == d);
                            } else {
                                lemma_same_head_and_rest(key, target);
                            }
                        } else {
                            assert(before.cmd_nodes[k].0 == d);
                        }
                    }
                    if before.holds(key, id) {
                        let k = choose|k: int|
                            0 <= k < before.cmd_nodes.len() && (#[trigger] before.cmd_nodes[k]).0
                                == d && before.cmd_nodes[k].1.holds(key.skip(1), id);
                        assert(after.cmd_nodes[k].0 == d && after.cmd_nodes[k].1.holds(
                            key.skip(1),
                            id,
                        ));
                    }
                    if key == target && id == path {
                        assert(after.cmd_nodes[at].0 == d && after.cmd_nodes[at].1.holds(
                            key.skip(1),
                            id,
                        ));
                    }
                },
                PathFingerprintElement::Coord(x) => {
                    if after.holds(key, id) {
                        let k = choose|k: int|
                            0 <= k < after.coord_nodes.len() && (#[trigger] after.coord_nodes[k]).0
                                == x && after.coord_nodes[k].1.holds(key.skip(1), id);
                        assert(before.coord_nodes[k].0 == x);
                    }
                    if before.holds(key, id) {
                        let k = choose|k: int|
                            0 <= k < before.coord_nodes.len() && (#[trigger] before.coord_nodes[k]).0
                                == x && before.coord_nodes[k].1.holds(key.skip(1), id);
                        assert(after.coord_nodes[k].0 == x);
                    }
                },
            }
        }
    }

    /// A node one of whose coordinate children has grown by a path has
    /// grown by that path under the longer fingerprint.
    proof fn lemma_grown_by_coord(
        before: PathTree,
        after: PathTree,
        at: int,
        target: Seq<PathFingerprintElement>,
        path: usize,
        key: Seq<PathFingerprintElement>,
        id: usize,
    )
        requires
            before.wf(),
            PathTree::same_shape(before, after),
            after.cmd_nodes == before.cmd_nodes,
            0 <= at < before.coord_nodes.len(),
            forall|k: int|
                0 <= k < before.coord_nodes.len() && k != at ==> #[trigger] after.coord_nodes[k]
                    == before.coord_nodes[k],
            target.len() > 0,
            target[0] == PathFingerprintElement::Coord(before.coord_nodes[at].0),
            PathTree::grown(
                before.coord_nodes[at].1,
                after.coord_nodes[at].1,
                target.skip(1),
                path,
            ),
        ensures
            after.holds(key, id) <==> before.holds(key, id) || (key == target && id == path),
    {
        if key.len() > 0 {
            match key[0] {
                PathFingerprintElement::Coord(x) => {
                    if after.holds(key, id) {
                        let k = choose|k: int|
                            0 <= k < after.coord_nodes.len() && (#[trigger] after.coord_nodes[k]).0
                                == x && after.coord_nodes[k].1.holds(key.skip(1), id);
                        if k == at {
                            if before.coord_nodes[k].1.holds(key.skip(1), id) {
                                assert(before.coord_nodes[k].0 == x);
                            } else {
                                lemma_same_head_and_rest(key, target);
                            }
                        } else {
                            assert(before.coord_nodes[k].0 == x);
                        }
                    }
                    if before.holds(key, id) {
                        let k = choose|k: int|
                            0 <= k < before.coord_nodes.len() && (#[trigger] before.coord_nodes[k]).0
                                == x && before.coord_nodes[k].1.holds(key.skip(1), id);
                        assert(after.coord_nodes[k].0 == x && after.coord_nodes[k].1.holds(
                            key.skip(1),
                            id,
                        ));
                    }
                    if key == target && id == path {
                        assert(after.coord_nodes[at].0 == x && after.coord_nodes[at].1.holds(
                            key.skip(1),
                            id,
                        ));
                    }
                },
                PathFingerprintElement::Command(d) => {
                    if after.holds(key, id) {
                        let k = choose|k: int|
                            0 <= k < after.cmd_nodes.len() && (#[trigger] after.cmd_nodes[k]).0 == d
                                && after.cmd_nodes[k].1.holds(key.skip(1), id);
                        assert(before.cmd_nodes[k].0 == d);
                    }
                    if before.holds(key, id) {
                        let k = choose|k: int|
                            0 <= k < before.cmd_nodes.len() && (#[trigger] before.cmd_nodes[k]).0
                                == d && before.cmd_nodes[k].1.holds(key.skip(1), id);
                        assert(after.cmd_nodes[k].0 == d);
                    }
                },
            }
        }
    }

    /// A node with one more child, which lists nothing, lists what it
    /// listed.
    proof fn lemma_empty_child_lists(
        before: PathTree,
        after: PathTree,
        at: int,
        query: Seq<PathFingerprintElement>,
        eps: int,
    )
        requires
            after.paths == before.paths,
            ({
                &&& after.coord_nodes == before.coord_nodes
                &&& 0 <= at <= before.cmd_nodes.len()
                &&& after.cmd_nodes@ == before.cmd_nodes@.insert(at, after.cmd_nodes@[at])
                &&& forall|q: Seq<PathFingerprintElement>, e: int|
                    (#[trigger] after.cmd_nodes@[at].1.listing(q, e)).len() == 0
            }) || ({
                &&& after.cmd_nodes == before.cmd_nodes
                &&& 0 <= at <= before.coord_nodes.len()
                &&& after.coord_nodes@ == before.coord_nodes@.insert(at, after.coord_nodes@[at])
                &&& forall|q: Seq<PathFingerprintElement>, e: int|
                    (#[trigger] after.coord_nodes@[at].1.listing(q, e)).len() == 0
            }),
        ensures
            after.listing(query, eps) == before.listing(query, eps),
    {
        if query.len() > 0 {
            let rest = query.skip(1);
            match query[0] {
                PathFingerprintElement::Command(c) => {
                    let old_parts = before.cmd_parts(c, rest, eps);
                    let new_parts = after.cmd_parts(c, rest, eps);
                    if after.coord_nodes == before.coord_nodes {
                        assert(after.cmd_nodes@[at].1.listing(rest, eps).len() == 0);
                        let wanted = old_parts.insert(at, Seq::empty());
                        assert(new_parts.len() == wanted.len());
                        assert forall|k: int| 0 <= k < new_parts.len() implies new_parts[k]
                            =~= wanted[k] by {
                            if k < at {
                                assert(after.cmd_nodes@[k] == before.cmd_nodes@[k]);
                            } else if k > at {
                                assert(after.cmd_nodes@[k] == before.cmd_nodes@[k - 1]);
                            }
                        }
                        assert(new_parts =~= wanted);
                        lemma_joined_insert_empty(old_parts, at);
                    } else {
                        assert(new_parts =~= old_parts);
                    }
                },
                PathFingerprintElement::Coord(x) => {
                    let old_parts = before.coord_parts(x, rest, eps);
                    let new_parts = after.coord_parts(x, rest, eps);
                    if after.cmd_nodes == before.cmd_nodes {
                        assert(after.coord_nodes@[at].1.listing(rest, eps).len() == 0);
                        let wanted = old_parts.insert(at, Seq::empty());
                        assert(new_parts.len() == wanted.len());
                        assert forall|k: int| 0 <= k < new_parts.len() implies new_parts[k]
                            =~= wanted[k] by {
                            if k < at {
                                assert(after.coord_nodes@[k] == before.coord_nodes@[k]);
                            } else if k > at {
                                assert(after.coord_nodes@[k] == before.coord_nodes@[k - 1]);
                            }
                        }
                        assert(new_parts =~= wanted);
                        lemma_joined_insert_empty(old_parts, at);
                    } else {
                        assert(new_parts =~= old_parts);
                    }
                },
            }
        }
    }

    /// A node one of whose command children lists one more path lists one
    /// more path under the longer fingerprint.
    proof fn lemma_lists_by_cmd(
        before: PathTree,
        after: PathTree,
        at: int,
        target: Seq<PathFingerprintElement>,
        path: usize,
        query: Seq<PathFingerprintElement>,
        eps: int,
    )
        requires
            before.wf(),
            PathTree::same_shape(before, after),
            after.coord_nodes == before.coord_nodes,
            0 <= at < before.cmd_nodes.len(),
            forall|k: int|
                0 <= k < before.cmd_nodes.len() && k != at ==> #[trigger] after.cmd_nodes[k]
                    == before.cmd_nodes[k],
            target.len() > 0,
            target[0] == PathFingerprintElement::Command(before.cmd_nodes[at].0),
            lists_one_more(before.cmd_nodes[at].1, after.cmd_nodes[at].1, target.skip(1), path),
        ensures
            one_more(
                before.listing(query, eps),
                after.listing(query, eps),
                similar(target, query, eps),
                path,
            ),
    {
        if query.len() == 0 {
        } else {
            let rest = query.skip(1);
            lemma_similar_split(target, query, eps);
            match query[0] {
                PathFingerprintElement::Command(c) => {
                    let old_parts = before.cmd_parts(c, rest, eps);
                    let new_parts = after.cmd_parts(c, rest, eps);
                    let old_list = before.cmd_nodes[at].1.listing(rest, eps);
                    let new_list = after.cmd_nodes[at].1.listing(rest, eps);
                    assert(one_more(old_list, new_list, similar(target.skip(1), rest, eps), path));
                    assert(after.cmd_nodes[at].0 == before.cmd_nodes[at].0);
                    if before.cmd_nodes[at].0 == c && similar(target.skip(1), rest, eps) {
                        let k = choose|k: int|
                            0 <= k <= old_list.len() && new_list == #[trigger] old_list.insert(
                                k,
                                path,
                            );
                        assert(new_parts =~= old_parts.update(at, old_parts[at].insert(k, path)));
                        lemma_joined_grows(old_parts, at, k, path);
                        let place = joined(old_parts.take(at)).len() + k;
                        assert(joined(new_parts) == joined(old_parts).insert(place, path));
                    } else {
                        assert(new_parts =~= old_parts);
                    }
                },
                PathFingerprintElement::Coord(x) => {
                    assert(after.coord_parts(x, rest, eps) =~= before.coord_parts(x, rest, eps));
                },
            }
        }
    }

    /// A node one of whose coordinate children lists one more path lists
    /// one more path under the longer fingerprint.
    proof fn lemma_lists_by_coord(
        before: PathTree,
        after: PathTree,
        at: int,
        target: Seq<PathFingerprintElement>,
        path: usize,
        query: Seq<PathFingerprintElement>,
        eps: int,
    )
        requires
            before.wf(),
            PathTree::same_shape(before, after),
            after.cmd_nodes == before.cmd_nodes,
            0 <= at < before.coord_nodes.len(),
            forall|k: int|
                0 <= k < before.coord_nodes.len() && k != at ==> #[trigger] after.coord_nodes[k]
                    == before.coord_nodes[k],
            target.len() > 0,
            target[0] == PathFingerprintElement::Coord(before.coord_nodes[at].0),
            lists_one_more(before.coord_nodes[at].1, after.coord_nodes[at].1, target.skip(1), path),
        ensures
            one_more(
                before.listing(query, eps),
                after.listing(query, eps),
                similar(target, query, eps),
                path,
            ),
    {
        if query.len() == 0 {
        } else {
            let rest = query.skip(1);
            lemma_similar_split(target, query, eps);
            match query[0] {
                PathFingerprintElement::Command(c) => {
                    assert(after.cmd_parts(c, rest, eps) =~= before.cmd_parts(c, rest, eps));
                },
                PathFingerprintElement::Coord(x) => {
                    let old_parts = before.coord_parts(x, rest, eps);
                    let new_parts = after.coord_parts(x, rest, eps);
                    let old_list = before.coord_nodes[at].1.listing(rest, eps);
                    let new_list = after.coord_nodes[at].1.listing(rest, eps);
                    let here = before.coord_nodes[at].0;
                    assert(one_more(old_list, new_list, similar(target.skip(1), rest, eps), path));
                    assert(after.coord_nodes[at].0 == here);
                    if x - eps <= here <= x + eps && similar(target.skip(1), rest, eps) {
                        let k = choose|k: int|
                            0 <= k <= old_list.len() && new_list == #[trigger] old_list.insert(
                                k,
                                path,
                            );
                        assert(new_parts =~= old_parts.update(at, old_parts[at].insert(k, path)));
                        lemma_joined_grows(old_parts, at, k, path);
                        let place = joined(old_parts.take(at)).len() + k;
                        assert(joined(new_parts) == joined(old_parts).insert(place, path));
                    } else {
                        assert(new_parts =~= old_parts);
                    }
                },
            }
        }
    }

    /// Where one child only stands under the first element of `target`, an
    /// exact lookup of `target` lists what that child lists for the rest.
    proof fn lemma_exact_listing(&self, at: int, target: Seq<PathFingerprintElement>)
        requires
            self.wf(),
            target.len() > 0,
            match target[0] {
                PathFingerprintElement::Command(c) => 0 <= at < self.cmd_nodes.len()
                    && self.cmd_nodes[at].0 == c,
                PathFingerprintElement::Coord(x) => 0 <= at < self.coord_nodes.len()
                    && self.coord_nodes[at].0 == x,
            },
        ensures
            self.listing(target, 0) == match target[0] {
                PathFingerprintElement::Command(c) => self.cmd_nodes[at].1.listing(
                    target.skip(1),
                    0,
                ),
                PathFingerprintElement::Coord(x) => self.coord_nodes[at].1.listing(
                    target.skip(1),
                    0,
                ),
            },
    {
        let rest = target.skip(1);
        match target[0] {
            PathFingerprintElement::Command(c) => {
                let parts = self.cmd_parts(c, rest, 0);
                assert forall|k: int| 0 <= k < parts.len() && k != at implies (
                #[trigger] parts[k]).len() == 0 by {
                    if k < at {
                        assert(self.cmd_nodes[k].0 != self.cmd_nodes[at].0);
                    } else {
                        assert(self.cmd_nodes[at].0 != self.cmd_nodes[k].0);
                    }
                }
                lemma_joined_single(parts, at);
            },
            PathFingerprintElement::Coord(x) => {
                let parts = self.coord_parts(x, rest, 0);
                assert forall|k: int| 0 <= k < parts.len() && k != at implies (
                #[trigger] parts[k]).len() == 0 by {
                    if k < at {
                        assert(self.coord_nodes[k].0 < self.coord_nodes[at].0);
                    } else {
                        assert(self.coord_nodes[at].0 < self.coord_nodes[k].0);
                    }
                }
                lemma_joined_single(parts, at);
            },
        }
    }

    /// Stores `path` at this node.
    fn insert_here(&mut self, path: usize)
        requires
            old(self).wf(),
        ensures
            final(self).wf(),
            PathTree::grown(*old(self), *final(self), Seq::empty(), path),
            lists_one_more(*old(self), *final(self), Seq::empty(), path),
            final(self).listing(Seq::empty(), 0) == old(self).listing(Seq::empty(), 0).push(path),
    {
        let ghost before = *self;
        self.paths.push(path);
        assert forall|query: Seq<PathFingerprintElement>, eps: int|
            one_more(
                before.listing(query, eps),
                #[trigger] self.listing(query, eps),
                similar(Seq::empty(), query, eps),
                path,
            ) by {
            if query.len() == 0 {
                let shorter = before.listing(query, eps);
                assert(self.listing(query, eps) =~= shorter.insert(shorter.len() as int, path));
            } else {
                match query[0] {
                    PathFingerprintElement::Command(c) => {
                        assert(self.cmd_parts(c, query.skip(1), eps) =~= before.cmd_parts(
                            c,
                            query.skip(1),
                            eps,
                        ));
                    },
                    PathFingerprintElement::Coord(x) => {
                        assert(self.coord_parts(x, query.skip(1), eps) =~= before.coord_parts(
                            x,
                            query.skip(1),
                            eps,
                        ));
                    },
                }
            }
        }
        assert forall|key: Seq<PathFingerprintElement>, id: usize|
            #[trigger] self.holds(key, id) <==> before.holds(key, id) || (key == Seq::<
                PathFingerprintElement,
            >::empty() && id == path) by {
            if key.len() == 0 {
                assert(key =~= Seq::<PathFingerprintElement>::empty());
                if before.paths@.contains(id) {
                    let k = choose|k: int| 0 <= k < before.paths@.len() && before.paths@[k] == id;
                    assert(self.paths@[k] == id);
                }
                if id == path {
                    assert(self.paths@[before.paths@.len() as int] == id);
                }
                if self.paths@.contains(id) {
                    let k = choose|k: int| 0 <= k < self.paths@.len() && self.paths@[k] == id;
                    if k < before.paths@.len() {
                        assert(before.paths@[k] == id);
                    }
                }
            } else {
                assert(self.cmd_nodes == before.cmd_nodes);
                assert(self.coord_nodes == before.coord_nodes);
            }
        }
    }

    /// The position of the child for the command `c`, which is added if
    /// there is none yet.
    fn cmd_child(&mut self, c: PathCommand) -> (at: usize)
        requires
            old(self).wf(),
        ensures
            final(self).wf(),
            at < final(self).cmd_nodes.len(),
            final(self).cmd_nodes[at as int].0 == c,
            forall|key: Seq<PathFingerprintElement>, id: usize|
                #[trigger] final(self).holds(key, id) <==> old(self).holds(key, id),
            forall|query: Seq<PathFingerprintElement>, eps: int|
                #[trigger] final(self).listing(query, eps) == old(self).listing(query, eps),
    {
        let ghost before = *self;
        let mut i: usize = 0;
        while i < self.cmd_nodes.len() && self.cmd_nodes[i].0 != c
            invariant
                i <= self.cmd_nodes.len(),
                *self == before,
                forall|k: int| 0 <= k < i ==> (#[trigger] self.cmd_nodes[k]).0 != c,
            decreases self.cmd_nodes.len() - i,
        {
            i += 1;
        }
        if i == self.cmd_nodes.len() {
            let child = PathTree::new();
            proof {
                child.lemma_empty_view();
            }
            self.cmd_nodes.push((c, child));
            assert(self.cmd_nodes@ =~= before.cmd_nodes@.insert(i as int, self.cmd_nodes@[i as int]));
            assert forall|key: Seq<PathFingerprintElement>, id: usize|
                #[trigger] self.holds(key, id) <==> before.holds(key, id) by {
                PathTree::lemma_empty_child(before, *self, i as int, key, id);
            }
            assert forall|query: Seq<PathFingerprintElement>, eps: int|
                #[trigger] self.listing(query, eps) == before.listing(query, eps) by {
                PathTree::lemma_empty_child_lists(before, *self, i as int, query, eps);
            }
            assert forall|k: int| 0 <= k < self.cmd_nodes.len() implies (
            #[trigger] self.cmd_nodes[k]).1.wf() by {
                if k < i {
                    assert(self.cmd_nodes[k] == before.cmd_nodes[k]);
                }
            }
            assert forall|k: int, l: int| 0 <= k < l < self.cmd_nodes.len() implies (
            #[trigger] self.cmd_nodes[k]).0 != (#[trigger] self.cmd_nodes[l]).0 by {
                assert(self.cmd_nodes[k] == before.cmd_nodes[k]);
                if l < i {
                    assert(self.cmd_nodes[l] == before.cmd_nodes[l]);
                }
            }
        }
        i
    }

    /// The position of the child for the coordinate `x`, which is added in
    /// its place if there is none yet.
    fn coord_child(&mut self, x: i64) -> (at: usize)
        requires
            old(self).wf(),
        ensures
            final(self).wf(),
            at < final(self).coord_nodes.len(),
            final(self).coord_nodes[at as int].0 == x,
            forall|key: Seq<PathFingerprintElement>, id: usize|
                #[trigger] final(self).holds(key, id) <==> old(self).holds(key, id),
            forall|query: Seq<PathFingerprintElement>, eps: int|
                #[trigger] final(self).listing(query, eps) == old(self).listing(query, eps),
    {
        let ghost before = *self;
        let i = self.lower_bound(x);
        if i == self.coord_nodes.len() || self.coord_nodes[i].0 != x {
            let child = PathTree::new();
            proof {
                child.lemma_empty_view();
            }
            self.coord_nodes.insert(i, (x, child));
            assert forall|key: Seq<PathFingerprintElement>, id: usize|
                #[trigger] self.holds(key, id) <==> before.holds(key, id) by {
                PathTree::lemma_empty_child(before, *self, i as int, key, id);
            }
            assert forall|query: Seq<PathFingerprintElement>, eps: int|
                #[trigger] self.listing(query, eps) == before.listing(query, eps) by {
                PathTree::lemma_empty_child_lists(before, *self, i as int, query, eps);
            }
            assert forall|k: int, l: int| 0 <= k < l < self.coord_nodes.len() implies (
            #[trigger] self.coord_nodes[k]).0 < (#[trigger] self.coord_nodes[l]).0 by {
                let a = if k < i {
                    before.coord_nodes[k]
                } else if k > i {
                    before.coord_nodes[k - 1]
                } else {
                    self.coord_nodes[k]
                };
                let b = if l < i {
                    before.coord_nodes[l]
                } else if l > i {
                    before.coord_nodes[l - 1]
                } else {
                    self.coord_nodes[l]
                };
                assert(self.coord_nodes[k] == a);
                assert(self.coord_nodes[l] == b);
            }
            assert forall|k: int| 0 <= k < self.coord_nodes.len() implies (
            #[trigger] self.coord_nodes[k]).1.wf() by {
                if k < i {
                    assert(self.coord_nodes[k] == before.coord_nodes[k]);
                } else if k > i {
                    assert(self.coord_nodes[k] == before.coord_nodes[k - 1]);
                }
            }
        }
        i
    }

    /// Stores the path `path` under the elements of `elems` from `pos` on.
    fn insert_slice(&mut self, elems: &Vec<PathFingerprintElement>, pos: usize, path: usize)
        requires
            old(self).wf(),
            pos <= elems.len(),
        ensures
            final(self).wf(),
            PathTree::grown(*old(self), *final(self), elems@.skip(pos as int), path),
            lists_one_more(*old(self), *final(self), elems@.skip(pos as int), path),
            final(self).listing(elems@.skip(pos as int), 0) == old(self).listing(
                elems@.skip(pos as int),
                0,
            ).push(path),
        decreases elems.len() - pos,
    {
        let ghost before = *self;
        let ghost target = elems@.skip(pos as int);
        if pos == elems.len() {
            assert(target =~= Seq::<PathFingerprintElement>::empty());
            self.insert_here(path);
            return ;
        }
        assert(target.len() > 0 && target[0] == elems@[pos as int]);
        assert(target.skip(1) =~= elems@.skip(pos + 1));
        match elems[pos] {
            PathFingerprintElement::Command(c) => {
                let i = self.cmd_child(c);
                let ghost mid = *self;
                self.cmd_nodes[i].1.insert_slice(elems, pos + 1, path);
                assert(PathTree::same_shape(mid, *self));
                assert(self.wf());
                assert forall|key: Seq<PathFingerprintElement>, id: usize|
                    #[trigger] self.holds(key, id) <==> before.holds(key, id) || (key == target
                        && id == path) by {
                    PathTree::lemma_grown_by_cmd(mid, *self, i as int, target, path, key, id);
                }
                assert forall|query: Seq<PathFingerprintElement>, eps: int|
                    one_more(
                        before.listing(query, eps),
                        #[trigger] self.listing(query, eps),
                        similar(target, query, eps),
                        path,
                    ) by {
                    assert(mid.listing(query, eps) == before.listing(query, eps));
                    PathTree::lemma_lists_by_cmd(mid, *self, i as int, target, path, query, eps);
                }
                proof {
                    assert(mid.listing(target, 0) == before.listing(target, 0));
                    mid.lemma_exact_listing(i as int, target);
                    self.lemma_exact_listing(i as int, target);
                }
            },
            PathFingerprintElement::Coord(x) => {
                let i = self.coord_child(x);
                let ghost mid = *self;
                self.coord_nodes[i].1.insert_slice(elems, pos + 1, path);
                assert(PathTree::same_shape(mid, *self));
                assert(self.wf());
                assert forall|key: Seq<PathFingerprintElement>, id: usize|
                    #[trigger] self.holds(key, id) <==> before.holds(key, id) || (key == target
                        && id == path) by {
                    PathTree::lemma_grown_by_coord(mid, *self, i as int, target, path, key, id);
                }
                assert forall|query: Seq<PathFingerprintElement>, eps: int|
                    one_more(
                        before.listing(query, eps),
                        #[trigger] self.listing(query, eps),
                        similar(target, query, eps),
                        path,
                    ) by {
                    assert(mid.listing(query, eps) == before.listing(query, eps));
                    PathTree::lemma_lists_by_coord(mid, *self, i as int, target, path, query, eps);
                }
                proof {
                    assert(mid.listing(target, 0) == before.listing(target, 0));
                    mid.lemma_exact_listing(i as int, target);
                    self.lemma_exact_listing(i as int, target);
                }
            },
        }
    }

    /// Some coordinate child from `from` up to, not including, `to` finds
    /// the path.
    closed spec fn finds_among(
        &self,
        rest: Seq<PathFingerprintElement>,
        eps: int,
        id: usize,
        from: int,
        to: int,
    ) -> bool {
        exists|k: int|
            from <= k < to && 0 <= k < self.coord_nodes.len() && (
            #[trigger] self.coord_nodes[k]).1.finds(rest, eps, id)
    }

    /// Appends the paths stored at this node.
    fn collect_here(&self, out: &mut Vec<usize>)
        ensures
            final(out)@ == old(out)@ + self.paths@,
            forall|id: usize|
                #[trigger] final(out)@.contains(id) <==> old(out)@.contains(id)
                    || self.paths@.contains(id),
    {
        let ghost start = out@;
        let mut k: usize = 0;
        assert(out@ =~= start + self.paths@.take(0));
        while k < self.paths.len()
            invariant
                k <= self.paths.len(),
                out@ == start + self.paths@.take(k as int),
                forall|id: usize|
                    #[trigger] out@.contains(id) <==> start.contains(id) || self.paths@.take(
                        k as int,
                    ).contains(id),
            decreases self.paths.len() - k,
        {
            let ghost prev = out@;
            let p = self.paths[k];
            out.push(p);
            assert(out@ =~= start + self.paths@.take(k + 1));
            assert forall|id: usize| #[trigger] out@.contains(id) <==> start.contains(id)
                || self.paths@.take(k + 1).contains(id) by {
                let grown = self.paths@.take(k + 1);
                let short = self.paths@.take(k as int);
                if out@.contains(id) {
                    let j = choose|j: int| 0 <= j < out@.len() && out@[j] == id;
                    if j < prev.len() {
                        assert(prev[j] == id);
                        assert(prev.contains(id));
                        if short.contains(id) {
                            let m = choose|m: int| 0 <= m < short.len() && short[m] == id;
                            assert(grown[m] == id);
                        }
                    } else {
                        assert(grown[k as int] == id);
                    }
                }
                if start.contains(id) {
                    assert(prev.contains(id));
                    let j = choose|j: int| 0 <= j < prev.len() && prev[j] == id;
                    assert(out@[j] == id);
                }
                if grown.contains(id) {
                    let m = choose|m: int| 0 <= m < grown.len() && grown[m] == id;
                    if m < k {
                        assert(short[m] == id);
                        assert(prev.contains(id));
                        let j = choose|j: int| 0 <= j < prev.len() && prev[j] == id;
                        assert(out@[j] == id);
                    } else {
                        assert(out@[prev.len() as int] == id);
                    }
                }
            }
            k += 1;
        }
        assert(self.paths@.take(k as int) =~= self.paths@);
    }

    /// Appends to `out` every path stored under a fingerprint that matches
    /// the elements of `elems` from `pos` on.
    fn collect_similar(
        &self,
        elems: &Vec<PathFingerprintElement>,
        pos: usize,
        eps: i64,
        out: &mut Vec<usize>,
    )
        requires
            self.wf(),
            pos <= elems.len(),
        ensures
            final(out)@ == old(out)@ + self.listing(elems@.skip(pos as int), eps as int),
            forall|id: usize|
                #[trigger] final(out)@.contains(id) <==> old(out)@.contains(id) || self.finds(
                    elems@.skip(pos as int),
                    eps as int,
                    id,
                ),
        decreases elems.len() - pos,
    {
        let ghost start = out@;
        let ghost query = elems@.skip(pos as int);
        if pos == elems.len() {
            assert(query.len() == 0);
            self.collect_here(out);
            return ;
        }
        let ghost rest = elems@.skip(pos + 1);
        assert(query.len() > 0 && query[0] == elems@[pos as int]);
        assert(query.skip(1) =~= rest);
        let ghost parts = match query[0] {
            PathFingerprintElement::Command(c) => self.cmd_parts(c, rest, eps as int),
            PathFingerprintElement::Coord(x) => self.coord_parts(x, rest, eps as int),
        };
        assert(self.listing(query, eps as int) == joined(parts));
        match elems[pos] {
            PathFingerprintElement::Command(c) => {
                let mut i: usize = 0;
                while i < self.cmd_nodes.len() && self.cmd_nodes[i].0 != c
                    invariant
                        i <= self.cmd_nodes.len(),
                        forall|k: int| 0 <= k < i ==> (#[trigger] self.cmd_nodes[k]).0 != c,
                    decreases self.cmd_nodes.len() - i,
                {
                    i += 1;
                }
                if i < self.cmd_nodes.len() {
                    self.cmd_nodes[i].1.collect_similar(elems, pos + 1, eps, out);
                    proof {
                        assert forall|k: int| 0 <= k < parts.len() && k != i implies (
                        #[trigger] parts[k]).len() == 0 by {
                            if k < i {
                                assert(self.cmd_nodes[k].0 != self.cmd_nodes[i as int].0);
                            } else {
                                assert(self.cmd_nodes[i as int].0 != self.cmd_nodes[k].0);
                            }
                        }
                        lemma_joined_single(parts, i as int);
                    }
                    assert forall|id: usize| self.finds(query, eps as int, id)
                        == self.cmd_nodes[i as int].1.finds(rest, eps as int, id) by {
                        if self.finds(query, eps as int, id) {
                            let k = choose|k: int|
                                0 <= k < self.cmd_nodes.len() && (#[trigger] self.cmd_nodes[k]).0
                                    == c && self.cmd_nodes[k].1.finds(rest, eps as int, id);
                            assert(k == i) by {
                                if k < i {
                                    assert(self.cmd_nodes[k].0 != self.cmd_nodes[i as int].0);
                                } else if k > i {
                                    assert(self.cmd_nodes[i as int].0 != self.cmd_nodes[k].0);
                                }
                            }
                        }
                        if self.cmd_nodes[i as int].1.finds(rest, eps as int, id) {
                            assert(self.cmd_nodes[i as int].0 == c);
                        }
                    }
                } else {
                    assert forall|id: usize| !self.finds(query, eps as int, id) by {
                        if self.finds(query, eps as int, id) {
                            let k = choose|k: int|
                                0 <= k < self.cmd_nodes.len() && (#[trigger] self.cmd_nodes[k]).0
                                    == c && self.cmd_nodes[k].1.finds(rest, eps as int, id);
                        }
                    }
                    proof {
                        lemma_joined_tail(parts, 0);
                        assert(out@ =~= start + joined(parts));
                    }
                }
            },
            PathFingerprintElement::Coord(x) => {
                if eps < 0 {
                    assert forall|id: usize| !self.finds(query, eps as int, id) by {
                        if self.finds(query, eps as int, id) {
                            let k = choose|k: int|
                                0 <= k < self.coord_nodes.len() && x - eps <= (
                                #[trigger] self.coord_nodes[k]).0 <= x + eps
                                    && self.coord_nodes[k].1.finds(rest, eps as int, id);
                        }
                    }
                    proof {
                        lemma_joined_tail(parts, 0);
                        assert(out@ =~= start + joined(parts));
                    }
                    return ;
                }
                let low = lower_bound_of(x, eps);
                let high = upper_bound_of(x, eps);
                let first = self.lower_bound(low);
                let mut i: usize = first;
                proof {
                    lemma_joined_tail(parts.take(first as int), 0);
                    assert(out@ =~= start + joined(parts.take(first as int)));
                }
                while i < self.coord_nodes.len() && self.coord_nodes[i].0 <= high
                    invariant
                        first <= i <= self.coord_nodes.len(),
                        parts == self.coord_parts(x, rest, eps as int),
                        out@ == start + joined(parts.take(i as int)),
                        self.wf(),
                        pos < elems.len(),
                        rest == elems@.skip(pos + 1),
                        eps >= 0,
                        x - eps <= low,
                        low == x - eps || low == i64::MIN,
                        high <= x + eps,
                        high == x + eps || high == i64::MAX,
                        forall|k: int| first <= k < i ==> (#[trigger] self.coord_nodes[k]).0 <= high,
                        forall|k: int| 0 <= k < first ==> (#[trigger] self.coord_nodes[k]).0 < low,
                        forall|k: int|
                            first <= k < self.coord_nodes.len() ==> (
                            #[trigger] self.coord_nodes[k]).0 >= low,
                        forall|id: usize|
                            #[trigger] out@.contains(id) <==> start.contains(id)
                                || self.finds_among(rest, eps as int, id, first as int, i as int),
                    decreases self.coord_nodes.len() - i,
                {
                    let ghost prev = out@;
                    self.coord_nodes[i].1.collect_similar(elems, pos + 1, eps, out);
                    proof {
                        assert(parts.take(i + 1).drop_last() =~= parts.take(i as int));
                        assert(parts.take(i + 1).last() == parts[i as int]);
                        assert(out@ =~= start + joined(parts.take(i + 1)));
                    }
                    assert forall|id: usize| #[trigger] out@.contains(id) <==> start.contains(id)
                        || self.finds_among(rest, eps as int, id, first as int, i + 1) by {
                        if self.finds_among(rest, eps as int, id, first as int, i + 1) {
                            let k = choose|k: int|
                                first <= k < i + 1 && 0 <= k < self.coord_nodes.len() && (
                                #[trigger] self.coord_nodes[k]).1.finds(rest, eps as int, id);
                            if k < i {
                                assert(self.finds_among(rest, eps as int, id, first as int, i as int));
                            }
                        }
                        if self.finds_among(rest, eps as int, id, first as int, i as int) {
                            let k = choose|k: int|
                                first <= k < i && 0 <= k < self.coord_nodes.len() && (
                                #[trigger] self.coord_nodes[k]).1.finds(rest, eps as int, id);
                            assert(first <= k < i + 1);
                        }
                        if self.coord_nodes[i as int].1.finds(rest, eps as int, id) {
                            assert(first <= i < i + 1);
                        }
                    }
                    i += 1;
                }
                proof {
                    lemma_joined_tail(parts, i as int);
                }
                assert forall|id: usize| self.finds(query, eps as int, id) == self.finds_among(
                    rest,
                    eps as int,
                    id,
                    first as int,
                    i as int,
                ) by {
                    if self.finds(query, eps as int, id) {
                        let k = choose|k: int|
                            0 <= k < self.coord_nodes.len() && x - eps <= (
                            #[trigger] self.coord_nodes[k]).0 <= x + eps
                                && self.coord_nodes[k].1.finds(rest, eps as int, id);
                        if k >= i {
                            if k > i {
                                assert(self.coord_nodes[i as int].0 < self.coord_nodes[k].0);
                            }
                        }
                        assert(first <= k < i);
                    }
                    if self.finds_among(rest, eps as int, id, first as int, i as int) {
                        let k = choose|k: int|
                            first <= k < i && 0 <= k < self.coord_nodes.len() && (
                            #[trigger] self.coord_nodes[k]).1.finds(rest, eps as int, id);
                        assert(x - eps <= self.coord_nodes[k].0 <= x + eps);
                    }
                }
            },
        }
    }

    /// The numbers of all paths in the index whose fingerprint matches
    /// `fingerprint`: the same commands, and every coordinate within `eps`.
    /// A path inserted more than once is listed more than once. What is
    /// listed, and in which order, is a matter of the index and the query
    /// alone; [`PathTree::insert`] says how the list grows.
    pub fn find_similar(&self, fingerprint: &PathFingerprint, eps: i64) -> (found: Vec<usize>)
        requires
            self.wf(),
        ensures
            found@ == self.listing(fingerprint.elems@, eps as int),
            found@.to_set() == matching_paths(self@, fingerprint.elems@, eps as int),
    {
        let mut found: Vec<usize> = Vec::new();
        self.collect_similar(&fingerprint.elems, 0, eps, &mut found);
        proof {
            let query = fingerprint.elems@;
            assert(query.skip(0) =~= query);
            assert(found@ =~= self.listing(query, eps as int));
            assert forall|id: usize|
                found@.to_set().contains(id) <==> matching_paths(self@, query, eps as int).contains(
                    id,
                ) by {
                self.lemma_finds(query, eps as int, id);
                if self.finds(query, eps as int, id) {
                    let key = choose|key: Seq<PathFingerprintElement>|
                        #[trigger] self.holds(key, id) && similar(key, query, eps as int);
                    assert(self@.contains((key, id)));
                }
                if matching_paths(self@, query, eps as int).contains(id) {
                    let key = choose|key: Seq<PathFingerprintElement>|
                        #[trigger] self@.contains((key, id)) && similar(key, query, eps as int);
                    assert(self.holds(key, id));
                }
            }
            assert(found@.to_set() =~= matching_paths(self@, query, eps as int));
        }
        found
    }

    /// What `new` ensures, in terms of `holds`.
    proof fn lemma_empty_view(&self)
        requires
            self@ == Set::<(Seq<PathFingerprintElement>, usize)>::empty(),
        ensures
            forall|key: Seq<PathFingerprintElement>, id: usize| !#[trigger] self.holds(key, id),
    {
        assert forall|key: Seq<PathFingerprintElement>, id: usize| !#[trigger] self.holds(
            key,
            id,
        ) by {
            assert(!self@.contains((key, id)));
        }
    }

    /// Stores the path numbered `path` under `fingerprint`. Every lookup
    /// that matches the fingerprint lists the path from now on, among what
    /// it listed before; an exact lookup of the fingerprint lists it last.
    /// No other lookup changes.
    pub fn insert(&mut self, fingerprint: &PathFingerprint, path: usize)
        requires
            old(self).wf(),
        ensures
            final(self).wf(),
            final(self)@ == old(self)@.insert((fingerprint.elems@, path)),
            lists_one_more(*old(self), *final(self), fingerprint.elems@, path),
            final(self).listing(fingerprint.elems@, 0) == old(self).listing(
                fingerprint.elems@,
                0,
            ).push(path),
            forall|other: Seq<PathFingerprintElement>|
                other != fingerprint.elems@ ==> #[trigger] final(self).listing(other, 0) == old(
                    self,
                ).listing(other, 0),
    {
        self.insert_slice(&fingerprint.elems, 0, path);
        assert(fingerprint.elems@.skip(0) =~= fingerprint.elems@);
        assert forall|other: Seq<PathFingerprintElement>| other != fingerprint.elems@ implies (
        #[trigger] self.listing(other, 0)) == old(self).listing(other, 0) by {
            lemma_exact_match(fingerprint.elems@, other);
            assert(one_more(
                old(self).listing(other, 0),
                self.listing(other, 0),
                similar(fingerprint.elems@, other, 0),
                path,
            ));
        }
        assert(self@ =~= old(self)@.insert((fingerprint.elems@, path)));
    }
}

impl Default for PathTree {
    /// An index that holds no path.
    fn default() -> (tree: PathTree)
        ensures
            tree.wf(),
            tree@ == Set::<(Seq<PathFingerprintElement>, usize)>::empty(),
            forall|query: Seq<PathFingerprintElement>, eps: int|
                (#[trigger] tree.listing(query, eps)).len() == 0,
    {
        PathTree::new()
    }
}

} // verus!
