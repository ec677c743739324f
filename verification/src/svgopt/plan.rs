//! From what becomes of each path to what the rewritten page holds: in
//! the place of each path either the path itself or a reference, and at the
//! end the block of shared definitions.

use vstd::prelude::*;
use crate::svgopt::classify::{
    classify, lemma_reference_is_sound, paths_wf, records_match, state_of, Path, PathRecord,
    State,
};
use crate::svgopt::fingerprint::{lemma_shift_origin, shift_origin};
use crate::units::in_domain;

verus! {

/// What stands in the place of a path in the rewritten page.
#[derive(Clone, Copy, Debug, PartialEq, Eq, Structural)]
pub enum Emission {
    /// The path itself, as it was.
    Unchanged,
    /// A reference to the shared definition of the path numbered `target`,
    /// moved by `dx` and `dy`.
    Reference { target: usize, dx: i64, dy: i64 },
}

/// The shift origins lie in the coordinate domain, and every reference
/// points to an earlier path.
pub open spec fn records_wf(records: Seq<PathRecord>) -> bool {
    forall|j: int|
        0 <= j < records.len() ==> {
            &&& in_domain((#[trigger] records[j]).fingerprint.shift.0 as int)
            &&& in_domain(records[j].fingerprint.shift.1 as int)
            &&& records[j].state matches State::Referring(k) ==> k < j
        }
}

/// What stands in the place of the path numbered `j`: a standalone path
/// stays; a shared definition leaves a reference to itself that moves it
/// nowhere; a reference moves the definition by the difference between the
/// two shift origins.
pub open spec fn emission_spec(records: Seq<PathRecord>, j: int) -> Emission {
    match records[j].state {
        State::Standalone => Emission::Unchanged,
        State::Referred => Emission::Reference { target: j as usize, dx: 0, dy: 0 },
        State::Referring(k) => Emission::Reference {
            target: k,
            dx: (records[j].fingerprint.shift.0 - records[k as int].fingerprint.shift.0) as i64,
            dy: (records[j].fingerprint.shift.1 - records[k as int].fingerprint.shift.1) as i64,
        },
    }
}

/// The emissions of all paths, in document order.
pub open spec fn emissions_spec(records: Seq<PathRecord>) -> Seq<Emission> {
    Seq::new(records.len(), |j: int| emission_spec(records, j))
}

/// The numbers of the shared definitions, in document order.
pub open spec fn definitions_spec(records: Seq<PathRecord>) -> Seq<usize>
    decreases records.len(),
{
    if records.len() == 0 {
        Seq::empty()
    } else {
        let before = definitions_spec(records.drop_last());
        if records.last().state == State::Referred {
            before.push((records.len() - 1) as usize)
        } else {
            before
        }
    }
}

/// The block of definitions names each shared definition once, in
/// ascending order, and nothing else.
pub proof fn lemma_definitions(records: Seq<PathRecord>)
    requires
        records.len() <= usize::MAX,
    ensures
        forall|a: int, b: int|
            0 <= a < b < definitions_spec(records).len() ==> definitions_spec(records)[a]
                < definitions_spec(records)[b],
        forall|a: int|
            0 <= a < definitions_spec(records).len() ==> (#[trigger] definitions_spec(records)[a])
                < records.len(),
        forall|j: usize|
            #[trigger] definitions_spec(records).contains(j) <==> j < records.len() && records[j as int].state
                == State::Referred,
    decreases records.len(),
{
    if records.len() > 0 {
        let head = records.drop_last();
        let last = (records.len() - 1) as usize;
        lemma_definitions(head);
        let before = definitions_spec(head);
        let all = definitions_spec(records);
        assert forall|j: usize| #[trigger] all.contains(j) <==> j < records.len() && records[j as int].state
            == State::Referred by {
            if all.contains(j) {
                let a = choose|a: int| 0 <= a < all.len() && all[a] == j;
                if a < before.len() {
                    assert(before[a] == j);
                    assert(before.contains(j));
                    assert(head[j as int] == records[j as int]);
                }
            }
            if j < records.len() && records[j as int].state == State::Referred {
                if j < last {
                    assert(head[j as int] == records[j as int]);
                    assert(before.contains(j));
                    let a = choose|a: int| 0 <= a < before.len() && before[a] == j;
                    assert(all[a] == j);
                } else {
                    assert(all[all.len() - 1] == j);
                }
            }
        }
    }
}

/// What [`classify`] returns is well formed.
pub proof fn lemma_records_wf(records: Seq<PathRecord>, paths: Seq<Path>, eps: int)
    requires
        paths_wf(paths),
        paths.len() <= usize::MAX,
        records_match(records, paths, eps, paths.len() as int),
    ensures
        records_wf(records),
{
    assert forall|j: int| 0 <= j < records.len() implies {
        &&& in_domain((#[trigger] records[j]).fingerprint.shift.0 as int)
        &&& in_domain(records[j].fingerprint.shift.1 as int)
        &&& records[j].state matches State::Referring(k) ==> k < j
    } by {
        assert(paths[j].wf());
        lemma_shift_origin(paths[j].segments@);
        let at = choose|at: int|
            0 <= at < paths[j].segments@.len() && (#[trigger] paths[j].segments@[at]).point()
                == shift_origin(paths[j].segments@);
        assert(paths[j].segments@[at].wf());
        if let State::Referring(k) = records[j].state {
            lemma_reference_is_sound(paths, eps, paths.len() as int, j, k);
        }
    }
}

/// What stands in the place of the path numbered `j`.
pub fn emission(records: &Vec<PathRecord>, j: usize) -> (e: Emission)
    requires
        records_wf(records@),
        j < records.len(),
    ensures
        e == emission_spec(records@, j as int),
{
    match records[j].state {
        State::Standalone => Emission::Unchanged,
        State::Referred => Emission::Reference { target: j, dx: 0, dy: 0 },
        State::Referring(k) => {
            assert(k < j);
            let from = records[k].fingerprint.shift;
            let to = records[j].fingerprint.shift;
            Emission::Reference { target: k, dx: to.0 - from.0, dy: to.1 - from.1 }
        },
    }
}

/// The numbers of the shared definitions, in the order in which the block
/// of definitions lists them.
pub fn definitions(records: &Vec<PathRecord>) -> (defs: Vec<usize>)
    ensures
        defs@ == definitions_spec(records@),
{
    let mut defs: Vec<usize> = Vec::new();
    let mut j: usize = 0;
    while j < records.len()
        invariant
            j <= records.len(),
            defs@ == definitions_spec(records@.take(j as int)),
        decreases records.len() - j,
    {
        assert(records@.take(j + 1).drop_last() =~= records@.take(j as int));
        if records[j].state == State::Referred {
            defs.push(j);
        }
        j += 1;
    }
    assert(records@.take(j as int) =~= records@);
    defs
}

/// The outcome of the optimizer for one page: each path with its
/// fingerprint and what becomes of it, what stands in the place of each
/// path, and the paths that the block of shared definitions holds.
#[derive(Debug, PartialEq, Eq)]
pub struct Optimized {
    records: Vec<PathRecord>,
    emissions: Vec<Emission>,
    definitions: Vec<usize>,
}

impl View for Optimized {
    type V = Seq<PathRecord>;

    /// The records of the paths, in document order.
    closed spec fn view(&self) -> Seq<PathRecord> {
        self.records@
    }
}

impl Optimized {
    #[verifier::type_invariant]
    spec fn consistent(self) -> bool {
        &&& records_wf(self.records@)
        &&& self.emissions@ == emissions_spec(self.records@)
        &&& self.definitions@ == definitions_spec(self.records@)
    }

    /// Each path with its fingerprint and what becomes of it, in document
    /// order.
    pub fn records(&self) -> (records: &Vec<PathRecord>)
        ensures
            records@ == self@,
            records_wf(records@),
    {
        proof {
            use_type_invariant(self);
        }
        &self.records
    }

    /// What stands in the place of each path, in document order.
    pub fn emissions(&self) -> (emissions: &Vec<Emission>)
        ensures
            emissions@ == emissions_spec(self@),
    {
        proof {
            use_type_invariant(self);
        }
        &self.emissions
    }

    /// The numbers of the paths that the block of shared definitions
    /// holds, in its order.
    pub fn definitions(&self) -> (definitions: &Vec<usize>)
        ensures
            definitions@ == definitions_spec(self@),
    {
        proof {
            use_type_invariant(self);
        }
        &self.definitions
    }
}

/// Finds the paths of a page that repeat an earlier one up to a shift,
/// and decides how the page is rewritten: every path that nothing repeats
/// stays where it is; every path that a later one repeats moves into the
/// block of shared definitions and leaves a reference that moves it
/// nowhere; every path that repeats an earlier one becomes a reference
/// that moves the definition by the difference of the two shift origins.
pub fn optimize(paths: &Vec<Path>, eps: i64) -> (out: Optimized)
    requires
        paths_wf(paths@),
    ensures
        records_match(out@, paths@, eps as int, paths.len() as int),
        records_wf(out@),
{
    let records = classify(paths, eps);
    proof {
        lemma_records_wf(records@, paths@, eps as int);
    }
    let mut emissions: Vec<Emission> = Vec::new();
    let mut j: usize = 0;
    while j < records.len()
        invariant
            j <= records.len(),
            records_wf(records@),
            emissions@ == emissions_spec(records@).take(j as int),
        decreases records.len() - j,
    {
        let e = emission(&records, j);
        emissions.push(e);
        assert(emissions@ =~= emissions_spec(records@).take(j + 1));
        j += 1;
    }
    assert(emissions@ =~= emissions_spec(records@));
    let defs = definitions(&records);
    Optimized { records, emissions, definitions: defs }
}

} // verus!
