//! What becomes of each path: drawn where it stands, drawn once as a
//! shared definition, or replaced by a reference.

use vstd::prelude::*;
use crate::svgopt::fingerprint::{
    relative_elems, segments_wf, shift_origin, similar, PathFingerprint, PathFingerprintElement,
    PathSegment,
};
use crate::svgopt::fingerprint::close;
use crate::svgopt::style::{
    lemma_same_style_symmetric, same_fill_spec, same_style, same_style_spec, Style,
};
use crate::svgopt::tree::{matching_paths, PathTree};
use crate::units::is_in_domain;

verus! {

/// One leaf path of a page: its segments with the transform applied, and
/// how it is painted.
#[derive(Debug, PartialEq, Eq)]
pub struct Path {
    pub segments: Vec<PathSegment>,
    pub style: Style,
}

impl Path {
    /// The coordinates lie in the coordinate domain and the path names at
    /// least one point.
    pub open spec fn wf(&self) -> bool {
        segments_wf(self.segments@) && shift_origin(self.segments@) is Some
    }

    /// The shift origin: the first point of the path.
    pub open spec fn origin(&self) -> (i64, i64) {
        shift_origin(self.segments@)->0
    }

    /// The elements of the fingerprint of the path.
    pub open spec fn key(&self) -> Seq<PathFingerprintElement> {
        relative_elems(self.segments@, self.origin())
    }

    /// Exec counterpart of [`Path::wf`].
    pub fn is_wf(&self) -> (ok: bool)
        ensures
            ok == self.wf(),
    {
        let mut named = false;
        let mut i: usize = 0;
        while i < self.segments.len()
            invariant
                i <= self.segments.len(),
                forall|k: int| 0 <= k < i ==> (#[trigger] self.segments@[k]).wf(),
                named == shift_origin(self.segments@.take(i as int)) is Some,
            decreases self.segments.len() - i,
        {
            assert(self.segments@.take(i + 1).drop_last() =~= self.segments@.take(i as int));
            let ok = match self.segments[i] {
                PathSegment::MoveTo { x, y } => is_in_domain(x) && is_in_domain(y),
                PathSegment::LineTo { x, y } => is_in_domain(x) && is_in_domain(y),
                PathSegment::CurveTo { x1, y1, x2, y2, x, y } => is_in_domain(x1) && is_in_domain(
                    y1,
                ) && is_in_domain(x2) && is_in_domain(y2) && is_in_domain(x) && is_in_domain(y),
                PathSegment::ClosePath => true,
            };
            if !ok {
                return false;
            }
            named = match self.segments[i] {
                PathSegment::ClosePath => named,
                _ => true,
            };
            i += 1;
        }
        assert(self.segments@.take(i as int) =~= self.segments@);
        named
    }
}

/// Whether every path is well formed.
pub open spec fn paths_wf(paths: Seq<Path>) -> bool {
    forall|i: int| 0 <= i < paths.len() ==> (#[trigger] paths[i]).wf()
}

/// What becomes of a path.
#[derive(Clone, Copy, Debug, PartialEq, Eq, Structural)]
pub enum State {
    /// The path is drawn where it stands.
    Standalone,
    /// The path is drawn once as a shared definition, because a later path
    /// repeats it.
    Referred,
    /// The path repeats the earlier path of the given number and is
    /// replaced by a reference to it.
    Referring(usize),
}

/// A path with its fingerprint and what becomes of it.
#[derive(Debug, PartialEq, Eq)]
pub struct PathRecord {
    pub state: State,
    pub fingerprint: PathFingerprint,
}

/// The path `b` repeats the path `a`: their fingerprints match within
/// `eps` and they are painted alike.
pub open spec fn duplicates(a: Path, b: Path, eps: int) -> bool {
    similar(a.key(), b.key(), eps) && same_style_spec(a.style, b.style, eps)
}

/// The path numbered `i` enters the index: it repeats no earlier path that
/// entered the index.
pub open spec fn is_indexed(paths: Seq<Path>, eps: int, i: int) -> bool
    decreases i,
{
    forall|k: int|
        0 <= k < i ==> !(is_indexed(paths, eps, k) && #[trigger] duplicates(
            paths[k],
            paths[i],
            eps,
        ))
}

/// The path numbered `k` is the first path in the index that the path
/// numbered `j` repeats.
pub open spec fn is_referent(paths: Seq<Path>, eps: int, j: int, k: int) -> bool {
    &&& 0 <= k < j
    &&& is_indexed(paths, eps, k)
    &&& duplicates(paths[k], paths[j], eps)
    &&& forall|e: int|
        0 <= e < k ==> !(is_indexed(paths, eps, e) && #[trigger] duplicates(
            paths[e],
            paths[j],
            eps,
        ))
}

/// Among the first `n` paths, one after the path numbered `j` repeats it
/// first.
pub open spec fn is_referred(paths: Seq<Path>, eps: int, n: int, j: int) -> bool {
    exists|m: int| j < m < n && #[trigger] is_referent(paths, eps, m, j)
}

/// What becomes of the path numbered `j` once the first `n` paths have
/// been looked at.
pub open spec fn state_of(paths: Seq<Path>, eps: int, n: int, j: int) -> State {
    if is_indexed(paths, eps, j) {
        if is_referred(paths, eps, n, j) {
            State::Referred
        } else {
            State::Standalone
        }
    } else {
        State::Referring((choose|k: int| is_referent(paths, eps, j, k)) as usize)
    }
}

/// A path repeats at most one path first.
pub proof fn lemma_referent_unique(paths: Seq<Path>, eps: int, j: int, k: int, l: int)
    requires
        is_referent(paths, eps, j, k),
        is_referent(paths, eps, j, l),
    ensures
        k == l,
{
}

/// A path that does not enter the index repeats some path first.
pub proof fn lemma_referent_exists(paths: Seq<Path>, eps: int, j: int)
    requires
        !is_indexed(paths, eps, j),
    ensures
        exists|k: int| is_referent(paths, eps, j, k),
{
    let some = choose|k: int|
        0 <= k < j && is_indexed(paths, eps, k) && #[trigger] duplicates(paths[k], paths[j], eps);
    let k = lemma_least_referent(paths, eps, j, some);
}

/// Below any indexed path that `j` repeats lies the first one.
proof fn lemma_least_referent(paths: Seq<Path>, eps: int, j: int, bound: int) -> (k: int)
    requires
        0 <= bound < j,
        is_indexed(paths, eps, bound),
        duplicates(paths[bound], paths[j], eps),
    ensures
        is_referent(paths, eps, j, k),
        k <= bound,
    decreases bound,
{
    if exists|e: int|
        0 <= e < bound && is_indexed(paths, eps, e) && #[trigger] duplicates(
            paths[e],
            paths[j],
            eps,
        ) {
        let e = choose|e: int|
            0 <= e < bound && is_indexed(paths, eps, e) && #[trigger] duplicates(
                paths[e],
                paths[j],
                eps,
            );
        lemma_least_referent(paths, eps, j, e)
    } else {
        bound
    }
}

/// What [`state_of`] says, case by case.
pub proof fn lemma_state_of(paths: Seq<Path>, eps: int, n: int, j: int)
    requires
        0 <= j < n <= paths.len() <= usize::MAX,
    ensures
        forall|k: int|
            state_of(paths, eps, n, j) == State::Referring(k as usize) && 0 <= k < j
                <==> #[trigger] is_referent(paths, eps, j, k),
        state_of(paths, eps, n, j) is Referring <==> !is_indexed(paths, eps, j),
        state_of(paths, eps, n, j) is Referred <==> is_indexed(paths, eps, j) && is_referred(
            paths,
            eps,
            n,
            j,
        ),
        state_of(paths, eps, n, j) is Standalone <==> is_indexed(paths, eps, j) && !is_referred(
            paths,
            eps,
            n,
            j,
        ),
{
    if !is_indexed(paths, eps, j) {
        lemma_referent_exists(paths, eps, j);
        let c = choose|k: int| is_referent(paths, eps, j, k);
        assert forall|k: int|
            state_of(paths, eps, n, j) == State::Referring(k as usize) && 0 <= k < j implies
            #[trigger] is_referent(paths, eps, j, k) by {
            assert(c as usize == k as usize);
            assert(c == k);
        }
        assert forall|k: int| #[trigger] is_referent(paths, eps, j, k) implies state_of(
            paths,
            eps,
            n,
            j,
        ) == State::Referring(k as usize) && 0 <= k < j by {
            lemma_referent_unique(paths, eps, j, k, c);
        }
    }
}

/// How the state of the path numbered `j` moves when the path numbered `i`
/// is looked at: it becomes a shared definition if that path repeats it
/// first, and stays what it was otherwise.
pub proof fn lemma_state_step(paths: Seq<Path>, eps: int, i: int, j: int)
    requires
        0 <= j < i < paths.len() <= usize::MAX,
    ensures
        state_of(paths, eps, i + 1, j) == if is_referent(paths, eps, i, j) {
            State::Referred
        } else {
            state_of(paths, eps, i, j)
        },
{
    if is_referent(paths, eps, i, j) {
        assert(j < i < i + 1 && is_referent(paths, eps, i, j));
    } else {
        if is_referred(paths, eps, i + 1, j) {
            let m = choose|m: int| j < m < i + 1 && #[trigger] is_referent(paths, eps, m, j);
            assert(j < m < i);
        }
        if is_referred(paths, eps, i, j) {
            let m = choose|m: int| j < m < i && #[trigger] is_referent(paths, eps, m, j);
            assert(j < m < i + 1);
        }
    }
}

/// The smallest number in `found` of a path painted like the path
/// numbered `i`.
fn first_alike(paths: &Vec<Path>, i: usize, found: &Vec<usize>, eps: i64) -> (best: Option<usize>)
    requires
        i < paths.len(),
        forall|t: int| 0 <= t < found.len() ==> #[trigger] found[t] < i,
    ensures
        match best {
            Some(k) => {
                &&& found@.contains(k)
                &&& same_style_spec(paths[k as int].style, paths[i as int].style, eps as int)
                &&& forall|t: int|
                    0 <= t < found.len() && same_style_spec(
                        paths[#[trigger] found[t] as int].style,
                        paths[i as int].style,
                        eps as int,
                    ) ==> k <= found[t]
            },
            None => forall|t: int|
                0 <= t < found.len() ==> !same_style_spec(
                    paths[#[trigger] found[t] as int].style,
                    paths[i as int].style,
                    eps as int,
                ),
        },
{
    let mut best: Option<usize> = None;
    let mut t: usize = 0;
    while t < found.len()
        invariant
            t <= found.len(),
            i < paths.len(),
            forall|t: int| 0 <= t < found.len() ==> #[trigger] found[t] < i,
            match best {
                Some(k) => {
                    &&& found@.contains(k)
                    &&& same_style_spec(paths[k as int].style, paths[i as int].style, eps as int)
                    &&& forall|u: int|
                        0 <= u < t && same_style_spec(
                            paths[#[trigger] found[u] as int].style,
                            paths[i as int].style,
                            eps as int,
                        ) ==> k <= found[u]
                },
                None => forall|u: int|
                    0 <= u < t ==> !same_style_spec(
                        paths[#[trigger] found[u] as int].style,
                        paths[i as int].style,
                        eps as int,
                    ),
            },
        decreases found.len() - t,
    {
        let id = found[t];
        let better = match best {
            Some(k) => id < k,
            None => true,
        };
        if better && same_style(&paths[id].style, &paths[i].style, eps) {
            assert(found@[t as int] == id);
            best = Some(id);
        }
        t += 1;
    }
    best
}

/// The index holds exactly the indexed paths among the first `n`, each
/// under its fingerprint.
pub open spec fn holds_indexed(
    index: Set<(Seq<PathFingerprintElement>, usize)>,
    paths: Seq<Path>,
    eps: int,
    n: int,
) -> bool {
    forall|key: Seq<PathFingerprintElement>, id: usize|
        #[trigger] index.contains((key, id)) <==> id < n && is_indexed(paths, eps, id as int)
            && key == paths[id as int].key()
}

/// Whether the records of the first `n` paths say what becomes of them.
pub open spec fn records_match(records: Seq<PathRecord>, paths: Seq<Path>, eps: int, n: int) -> bool {
    &&& records.len() == n
    &&& forall|j: int|
        0 <= j < n ==> {
            &&& (#[trigger] records[j]).state == state_of(paths, eps, n, j)
            &&& records[j].fingerprint.shift == paths[j].origin()
            &&& records[j].fingerprint.elems@ == paths[j].key()
        }
}

/// Looks at the paths in document order and decides what becomes of each.
///
/// A path that matches, within `eps` at every coordinate and in style, a
/// path of the index becomes a reference to the first such path, which
/// thereby becomes a shared definition. A path that matches none enters
/// the index.
pub fn classify(paths: &Vec<Path>, eps: i64) -> (records: Vec<PathRecord>)
    requires
        paths_wf(paths@),
    ensures
        records_match(records@, paths@, eps as int, paths.len() as int),
{
    let mut tree = PathTree::new();
    let mut records: Vec<PathRecord> = Vec::new();
    let mut i: usize = 0;
    while i < paths.len()
        invariant
            i <= paths.len(),
            paths_wf(paths@),
            tree.wf(),
            holds_indexed(tree@, paths@, eps as int, i as int),
            records_match(records@, paths@, eps as int, i as int),
        decreases paths.len() - i,
    {
        assert(paths@[i as int].wf());
        let fingerprint = PathFingerprint::new(&paths[i].segments);
        assert(fingerprint.elems@ == paths@[i as int].key());
        let found = tree.find_similar(&fingerprint, eps);
        proof {
            lemma_found(tree@, paths@, eps as int, i as int, found@);
        }
        let best = first_alike(paths, i, &found, eps);
        let ghost before = records@;
        match best {
            Some(k) => {
                proof {
                    lemma_first_alike_is_referent(tree@, paths@, eps as int, i as int, found@, k);
                }
                records[k].state = State::Referred;
                records.push(PathRecord { state: State::Referring(k), fingerprint });
                proof {
                    assert(!is_indexed(paths@, eps as int, i as int));
                    lemma_state_of(paths@, eps as int, i + 1, i as int);
                    assert forall|j: int| 0 <= j < i + 1 implies (#[trigger] records@[j]).state
                        == state_of(paths@, eps as int, i + 1, j) by {
                        if j < i {
                            lemma_state_step(paths@, eps as int, i as int, j);
                            if is_referent(paths@, eps as int, i as int, j) {
                                lemma_referent_unique(paths@, eps as int, i as int, j, k as int);
                            }
                        }
                    }
                }
            },
            None => {
                proof {
                    lemma_none_alike_is_indexed(tree@, paths@, eps as int, i as int, found@);
                }
                tree.insert(&fingerprint, i);
                records.push(PathRecord { state: State::Standalone, fingerprint });
                proof {
                    assert(!is_referred(paths@, eps as int, i + 1, i as int));
                    assert forall|j: int| 0 <= j < i + 1 implies (#[trigger] records@[j]).state
                        == state_of(paths@, eps as int, i + 1, j) by {
                        if j < i {
                            lemma_state_step(paths@, eps as int, i as int, j);
                            assert(records@[j] == before[j]);
                        }
                    }
                }
            },
        }
        i += 1;
    }
    records
}

/// What a lookup in the index returns for the path numbered `i`: the
/// indexed earlier paths whose fingerprint matches.
proof fn lemma_found(
    index: Set<(Seq<PathFingerprintElement>, usize)>,
    paths: Seq<Path>,
    eps: int,
    i: int,
    found: Seq<usize>,
)
    requires
        0 <= i < paths.len(),
        holds_indexed(index, paths, eps, i),
        found.to_set() == matching_paths(index, paths[i].key(), eps),
    ensures
        forall|t: int| 0 <= t < found.len() ==> #[trigger] found[t] < i,
        forall|id: usize|
            #[trigger] found.contains(id) <==> id < i && is_indexed(paths, eps, id as int)
                && similar(paths[id as int].key(), paths[i].key(), eps),
{
    assert forall|id: usize|
        #[trigger] found.contains(id) <==> id < i && is_indexed(paths, eps, id as int) && similar(
            paths[id as int].key(),
            paths[i].key(),
            eps,
        ) by {
        if found.contains(id) {
            assert(found.to_set().contains(id));
            let key = choose|key: Seq<PathFingerprintElement>|
                #[trigger] index.contains((key, id)) && similar(key, paths[i].key(), eps);
        }
        if id < i && is_indexed(paths, eps, id as int) && similar(
            paths[id as int].key(),
            paths[i].key(),
            eps,
        ) {
            assert(index.contains((paths[id as int].key(), id)));
            assert(matching_paths(index, paths[i].key(), eps).contains(id));
            assert(found.to_set().contains(id));
        }
    }
    assert forall|t: int| 0 <= t < found.len() implies #[trigger] found[t] < i by {
        assert(found.contains(found[t]));
    }
}

/// The smallest matching path that is painted alike is the first path
/// that the path numbered `i` repeats.
proof fn lemma_first_alike_is_referent(
    index: Set<(Seq<PathFingerprintElement>, usize)>,
    paths: Seq<Path>,
    eps: int,
    i: int,
    found: Seq<usize>,
    k: usize,
)
    requires
        0 <= i < paths.len(),
        forall|id: usize|
            #[trigger] found.contains(id) <==> id < i && is_indexed(paths, eps, id as int)
                && similar(paths[id as int].key(), paths[i].key(), eps),
        found.contains(k),
        same_style_spec(paths[k as int].style, paths[i].style, eps),
        forall|t: int|
            0 <= t < found.len() && same_style_spec(
                paths[#[trigger] found[t] as int].style,
                paths[i].style,
                eps,
            ) ==> k <= found[t],
    ensures
        is_referent(paths, eps, i, k as int),
        !is_indexed(paths, eps, i),
{
    assert forall|e: int| 0 <= e < k implies !(is_indexed(paths, eps, e) && #[trigger] duplicates(
        paths[e],
        paths[i],
        eps,
    )) by {
        if is_indexed(paths, eps, e) && duplicates(paths[e], paths[i], eps) {
            let id = e as usize;
            assert(found.contains(id));
            let t = choose|t: int| 0 <= t < found.len() && found[t] == id;
            assert(k <= found[t]);
        }
    }
    assert(duplicates(paths[k as int], paths[i], eps));
}

/// When no matching path is painted alike, the path numbered `i` enters
/// the index.
proof fn lemma_none_alike_is_indexed(
    index: Set<(Seq<PathFingerprintElement>, usize)>,
    paths: Seq<Path>,
    eps: int,
    i: int,
    found: Seq<usize>,
)
    requires
        0 <= i < paths.len() <= usize::MAX,
        forall|id: usize|
            #[trigger] found.contains(id) <==> id < i && is_indexed(paths, eps, id as int)
                && similar(paths[id as int].key(), paths[i].key(), eps),
        forall|t: int|
            0 <= t < found.len() ==> !same_style_spec(
                paths[#[trigger] found[t] as int].style,
                paths[i].style,
                eps,
            ),
    ensures
        is_indexed(paths, eps, i),
        forall|j: int| !is_referent(paths, eps, i, j),
{
    assert forall|e: int| 0 <= e < i implies !(is_indexed(paths, eps, e) && #[trigger] duplicates(
        paths[e],
        paths[i],
        eps,
    )) by {
        if is_indexed(paths, eps, e) && duplicates(paths[e], paths[i], eps) {
            let id = e as usize;
            assert(found.contains(id));
            let t = choose|t: int| 0 <= t < found.len() && found[t] == id;
        }
    }
}

/// Matching of fingerprints does not depend on which is named first.
pub proof fn lemma_similar_symmetric(
    a: Seq<PathFingerprintElement>,
    b: Seq<PathFingerprintElement>,
    eps: int,
)
    ensures
        similar(a, b, eps) == similar(b, a, eps),
{
    if similar(a, b, eps) {
        assert forall|i: int| 0 <= i < b.len() implies close(#[trigger] b[i], a[i], eps) by {
            assert(close(a[i], b[i], eps));
        }
    }
    if similar(b, a, eps) {
        assert forall|i: int| 0 <= i < a.len() implies close(#[trigger] a[i], b[i], eps) by {
            assert(close(b[i], a[i], eps));
        }
    }
}

/// Whether one path repeats another does not depend on which is named
/// first.
pub proof fn lemma_duplicates_symmetric(a: Path, b: Path, eps: int)
    ensures
        duplicates(a, b, eps) == duplicates(b, a, eps),
{
    lemma_similar_symmetric(a.key(), b.key(), eps);
    lemma_same_style_symmetric(a.style, b.style, eps);
}

/// A path that matches an earlier drawn path, with the same commands,
/// every coordinate within `eps` and the same style, becomes a reference.
/// The earlier path must itself be drawn, as the first path of a page
/// always is: a path that is a reference is not in the index, and what
/// matches only it may be drawn anew.
pub proof fn lemma_duplicate_becomes_reference(paths: Seq<Path>, eps: int, n: int, i: int, j: int)
    requires
        0 <= i < j < n <= paths.len() <= usize::MAX,
        !(state_of(paths, eps, n, i) is Referring),
        duplicates(paths[i], paths[j], eps),
    ensures
        state_of(paths, eps, n, j) is Referring,
{
    lemma_state_of(paths, eps, n, i);
    lemma_state_of(paths, eps, n, j);
}

/// A reference points to an earlier path that is a shared definition, whose
/// fingerprint matches within `eps` and which is painted alike.
pub proof fn lemma_reference_is_sound(paths: Seq<Path>, eps: int, n: int, j: int, k: usize)
    requires
        0 <= j < n <= paths.len() <= usize::MAX,
        state_of(paths, eps, n, j) == State::Referring(k),
    ensures
        k < j,
        similar(paths[k as int].key(), paths[j].key(), eps),
        same_style_spec(paths[k as int].style, paths[j].style, eps),
        state_of(paths, eps, n, k as int) == State::Referred,
{
    lemma_state_of(paths, eps, n, j);
    lemma_referent_exists(paths, eps, j);
    let c = choose|c: int| is_referent(paths, eps, j, c);
    assert(c as usize == k);
    assert(is_referent(paths, eps, j, k as int));
    assert(k < n && is_referent(paths, eps, j, k as int));
    lemma_state_of(paths, eps, n, k as int);
}

/// Two paths that differ by more than `eps` in one coordinate of their
/// fingerprints never share a drawing: neither becomes a reference to the
/// other, whatever their styles.
pub proof fn lemma_far_paths_never_share(
    paths: Seq<Path>,
    eps: int,
    n: int,
    i: int,
    j: int,
    at: int,
)
    requires
        0 <= i < n <= paths.len() <= usize::MAX,
        0 <= j < n,
        0 <= at < paths[i].key().len(),
        at < paths[j].key().len(),
        paths[i].key()[at] is Coord,
        paths[j].key()[at] is Coord,
        paths[i].key()[at]->Coord_0 - paths[j].key()[at]->Coord_0 > eps || paths[j].key()[at]->Coord_0
            - paths[i].key()[at]->Coord_0 > eps,
    ensures
        state_of(paths, eps, n, j) != State::Referring(i as usize),
        state_of(paths, eps, n, i) != State::Referring(j as usize),
{
    assert(!close(paths[i].key()[at], paths[j].key()[at], eps));
    assert(!close(paths[j].key()[at], paths[i].key()[at], eps));
    if state_of(paths, eps, n, j) == State::Referring(i as usize) {
        lemma_reference_is_sound(paths, eps, n, j, i as usize);
    }
    if state_of(paths, eps, n, i) == State::Referring(j as usize) {
        lemma_reference_is_sound(paths, eps, n, i, j as usize);
    }
}

/// Two paths filled with different colours never share a drawing, however
/// alike their geometry.
pub proof fn lemma_fill_colours_never_share(paths: Seq<Path>, eps: int, n: int, i: int, j: int)
    requires
        0 <= i < n <= paths.len() <= usize::MAX,
        0 <= j < n,
        paths[i].style.fill is Some,
        paths[j].style.fill is Some,
        paths[i].style.fill->0.paint is Color,
        paths[j].style.fill->0.paint is Color,
        paths[i].style.fill->0.paint->Color_0 != paths[j].style.fill->0.paint->Color_0,
    ensures
        state_of(paths, eps, n, j) != State::Referring(i as usize),
        state_of(paths, eps, n, i) != State::Referring(j as usize),
{
    assert(!same_fill_spec(paths[i].style.fill, paths[j].style.fill));
    assert(!same_fill_spec(paths[j].style.fill, paths[i].style.fill));
    if state_of(paths, eps, n, j) == State::Referring(i as usize) {
        lemma_reference_is_sound(paths, eps, n, j, i as usize);
    }
    if state_of(paths, eps, n, i) == State::Referring(j as usize) {
        lemma_reference_is_sound(paths, eps, n, i, j as usize);
    }
}

/// A path that has become a reference stays the same reference, however
/// many more paths are looked at.
pub proof fn lemma_reference_is_final(paths: Seq<Path>, eps: int, n: int, m: int, j: int)
    requires
        0 <= j < n <= m,
        state_of(paths, eps, n, j) is Referring,
    ensures
        state_of(paths, eps, m, j) == state_of(paths, eps, n, j),
{
}

/// Running the classification again on the paths that it left drawn, the
/// standalone paths and the shared definitions in whatever order, finds
/// nothing more to share: every one of them stays standalone.
///
/// `kept[a]` is the path numbered `origin[a]` of the first run.
pub proof fn lemma_second_run_shares_nothing(
    paths: Seq<Path>,
    eps: int,
    kept: Seq<Path>,
    origin: Seq<int>,
)
    requires
        kept.len() == origin.len(),
        forall|a: int|
            0 <= a < kept.len() ==> 0 <= #[trigger] origin[a] < paths.len() && is_indexed(
                paths,
                eps,
                origin[a],
            ) && kept[a] == paths[origin[a]],
        forall|a: int, b: int| 0 <= a < b < kept.len() ==> origin[a] != origin[b],
    ensures
        forall|a: int|
            0 <= a < kept.len() ==> #[trigger] state_of(kept, eps, kept.len() as int, a)
                == State::Standalone,
{
    assert forall|a: int, b: int| 0 <= a < b < kept.len() implies !#[trigger] duplicates(
        kept[a],
        kept[b],
        eps,
    ) by {
        let oa = origin[a];
        let ob = origin[b];
        if oa < ob {
            assert(!(is_indexed(paths, eps, oa) && duplicates(paths[oa], paths[ob], eps)));
        } else {
            assert(!(is_indexed(paths, eps, ob) && duplicates(paths[ob], paths[oa], eps)));
            lemma_duplicates_symmetric(paths[oa], paths[ob], eps);
        }
    }
    assert forall|a: int| 0 <= a < kept.len() implies #[trigger] state_of(
        kept,
        eps,
        kept.len() as int,
        a,
    ) == State::Standalone by {
        assert(is_indexed(kept, eps, a));
        if is_referred(kept, eps, kept.len() as int, a) {
            let m = choose|m: int| a < m < kept.len() && #[trigger] is_referent(kept, eps, m, a);
            assert(duplicates(kept[a], kept[m], eps));
        }
    }
}

} // verus!
