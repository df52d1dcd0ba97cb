//! What becomes of the subsets once the geometric test has looked at each:
//! which of them are reported, how many, and when the run fails instead.

use vstd::prelude::*;

verus! {

/// What the geometric test found for one subset of four points.
#[derive(Clone, Copy, Debug, PartialEq, Eq)]
pub enum Finding {
    /// The fourth point lies off the plane through the first three.
    OffPlane,
    /// The fourth point lies on the plane through the first three.
    OnPlane,
    /// The first three points are collinear or coincide: they define no plane.
    Degenerate,
}

/// The failure of a run: the subset at `position`, counted from zero in the
/// order of the enumeration, begins with three points that define no plane.
#[derive(Clone, Copy, Debug, PartialEq, Eq)]
pub struct DegeneratePlane {
    pub position: usize,
}

impl DegeneratePlane {
    /// The failure in words.
    pub fn message(&self) -> (text: String)
        ensures
            text@ == "Specified points do not define a valid plane."@,
    {
        "Specified points do not define a valid plane.".to_owned()
    }
}

/// A subset is valid when its fourth point lies off the plane through its
/// first three.
pub open spec fn is_valid(finding: Finding) -> bool {
    finding is OffPlane
}

/// The positions of the valid subsets, smallest first.
pub open spec fn valid_positions(findings: Seq<Finding>) -> Seq<int>
    decreases findings.len(),
{
    if findings.len() == 0 {
        Seq::<int>::empty()
    } else if is_valid(findings.last()) {
        valid_positions(findings.drop_last()).push(findings.len() - 1)
    } else {
        valid_positions(findings.drop_last())
    }
}

/// `position` is where the first degenerate subset stands.
pub open spec fn is_first_degenerate(findings: Seq<Finding>, position: int) -> bool {
    &&& 0 <= position < findings.len()
    &&& findings[position] is Degenerate
    &&& forall|i: int| 0 <= i < position ==> !(#[trigger] findings[i] is Degenerate)
}

/// No subset is degenerate.
pub open spec fn none_degenerate(findings: Seq<Finding>) -> bool {
    forall|i: int| 0 <= i < findings.len() ==> !(#[trigger] findings[i] is Degenerate)
}

/// What a list of positions holds.
pub open spec fn positions(list: Seq<usize>) -> Seq<int> {
    Seq::new(list.len(), |i: int| list[i] as int)
}

/// `result` settles the run with these findings: a failure that names the
/// first degenerate subset where there is one, and otherwise the positions of
/// the valid subsets, smallest first.
pub open spec fn settles(findings: Seq<Finding>, result: Result<Vec<usize>, DegeneratePlane>) -> bool {
    match result {
        Ok(valid) => none_degenerate(findings) && positions(valid@) == valid_positions(findings),
        Err(failure) => is_first_degenerate(findings, failure.position as int),
    }
}

/// The valid positions ascend, each is the position of a valid subset, and
/// the position of every valid subset is among them.
pub proof fn lemma_valid_positions(findings: Seq<Finding>)
    ensures
        valid_positions(findings).len() <= findings.len(),
        forall|i: int|
            0 <= i < valid_positions(findings).len() ==> 0 <= #[trigger] valid_positions(
                findings,
            )[i] < findings.len() && is_valid(findings[valid_positions(findings)[i]]),
        forall|i: int, j: int|
            0 <= i < j < valid_positions(findings).len() ==> valid_positions(findings)[i]
                < valid_positions(findings)[j],
        forall|p: int|
            0 <= p < findings.len() && is_valid(#[trigger] findings[p]) ==> valid_positions(
                findings,
            ).contains(p),
    decreases findings.len(),
{
    let valid = valid_positions(findings);
    if findings.len() > 0 {
        let shorter = findings.drop_last();
        let before = valid_positions(shorter);
        lemma_valid_positions(shorter);
        assert forall|i: int| 0 <= i < valid.len() implies 0 <= #[trigger] valid[i]
            < findings.len() && is_valid(findings[valid[i]]) by {
            if i < before.len() {
                assert(valid[i] == before[i]);
                assert(shorter[before[i]] == findings[before[i]]);
            }
        }
        assert forall|i: int, j: int| 0 <= i < j < valid.len() implies valid[i] < valid[j] by {
            assert(valid[i] == before[i]);
            if j < before.len() {
                assert(valid[j] == before[j]);
            }
        }
        assert forall|p: int| 0 <= p < findings.len() && is_valid(
            #[trigger] findings[p],
        ) implies valid.contains(p) by {
            if p < shorter.len() {
                assert(shorter[p] == findings[p]);
                assert(before.contains(p));
                let at = choose|at: int| 0 <= at < before.len() && before[at] == p;
                assert(valid[at] == p);
            } else {
                assert(valid[valid.len() - 1] == p);
            }
        }
    }
}

/// The same findings settle a run in one way only: two results for them fail
/// alike, naming the same subset, or report the same positions.
pub proof fn lemma_report_repeatable(
    findings: Seq<Finding>,
    first: Result<Vec<usize>, DegeneratePlane>,
    second: Result<Vec<usize>, DegeneratePlane>,
)
    requires
        settles(findings, first),
        settles(findings, second),
    ensures
        first is Ok <==> second is Ok,
        first is Ok ==> first->Ok_0@ == second->Ok_0@,
        first is Err ==> first->Err_0 == second->Err_0,
{
    match (first, second) {
        (Ok(a), Ok(b)) => {
            assert(positions(a@).len() == a@.len());
            assert(positions(b@).len() == b@.len());
            assert forall|i: int| 0 <= i < a@.len() implies a@[i] == b@[i] by {
                assert(positions(a@)[i] == positions(b@)[i]);
            }
            assert(a@ =~= b@);
        },
        (Err(a), Err(b)) => {
            if a.position < b.position {
                assert(!(findings[a.position as int] is Degenerate));
            } else if b.position < a.position {
                assert(!(findings[b.position as int] is Degenerate));
            }
        },
        (Ok(_), Err(b)) => {
            assert(!(findings[b.position as int] is Degenerate));
        },
        (Err(a), Ok(_)) => {
            assert(!(findings[a.position as int] is Degenerate));
        },
    }
}

/// Settles a run from the findings for its subsets, given in the order of the
/// enumeration. The run fails when a subset is degenerate, and names the first
/// such subset. Otherwise it reports the positions of the valid subsets,
/// smallest first; their number is the total of the run.
pub fn report(findings: &[Finding]) -> (result: Result<Vec<usize>, DegeneratePlane>)
    ensures
        settles(findings@, result),
{
    let mut valid: Vec<usize> = Vec::new();
    let mut i: usize = 0;
    while i < findings.len()
        invariant
            i <= findings.len(),
            none_degenerate(findings@.take(i as int)),
            positions(valid@) == valid_positions(findings@.take(i as int)),
        decreases findings.len() - i,
    {
        let ghost seen = findings@.take(i as int);
        let ghost next = findings@.take(i + 1);
        proof {
            assert(next.drop_last() =~= seen);
            assert(next.last() == findings@[i as int]);
        }
        match findings[i] {
            Finding::Degenerate => {
                proof {
                    assert forall|j: int| 0 <= j < i implies !(#[trigger] findings@[j]
                        is Degenerate) by {
                        assert(seen[j] == findings@[j]);
                    }
                }
                return Err(DegeneratePlane { position: i });
            },
            Finding::OffPlane => {
                valid.push(i);
                proof {
                    assert(positions(valid@) =~= valid_positions(seen).push(i as int));
                }
            },
            Finding::OnPlane => {},
        }
        proof {
            assert forall|j: int| 0 <= j < next.len() implies !(#[trigger] next[j]
                is Degenerate) by {
                if j < i {
                    assert(seen[j] == next[j]);
                }
            }
        }
        i += 1;
    }
    proof {
        assert(findings@.take(i as int) =~= findings@);
    }
    Ok(valid)
}

} // verus!
