//! Builds a validated rename map from proposed renames and runs it through
//! the rename-order solver.
use vstd::prelude::*;
use crate::error::{Error, ErrorKind};
use crate::interactive::InterativeMode;
use crate::solver::{
    models, solve_rename_order, spec_solve, valid_map, within_limits, OpModel, Operation,
    Operations, RenameMap,
};

verus! {

/// The proposed renames that actually change a name, in input order.
pub open spec fn active(s: Seq<OpModel>) -> Seq<OpModel>
    decreases s.len(),
{
    if s.len() == 0 {
        s
    } else {
        let rest = active(s.drop_last());
        if s.last().source != s.last().target {
            rest.push(s.last())
        } else {
            rest
        }
    }
}

/// No two proposed renames that change a name claim the same target.
pub open spec fn no_dup_targets(s: Seq<OpModel>) -> bool {
    forall|i: int, j: int|
        0 <= i < j < s.len() && (#[trigger] s[i]).source != s[i].target && (#[trigger] s[j]).source
            != s[j].target ==> s[i].target != s[j].target
}

proof fn lemma_active_index(s: Seq<OpModel>, j: int)
    requires
        0 <= j < active(s).len(),
    ensures
        exists|k: int|
            0 <= k < s.len() && (#[trigger] s[k]) == active(s)[j] && s[k].source != s[k].target,
    decreases s.len(),
{
    let rest = active(s.drop_last());
    if s.last().source != s.last().target && j == rest.len() {
        assert(s[s.len() - 1] == active(s)[j]);
    } else {
        lemma_active_index(s.drop_last(), j);
        let k = choose|k: int|
            0 <= k < s.drop_last().len() && (#[trigger] s.drop_last()[k]) == active(
                s.drop_last(),
            )[j] && s.drop_last()[k].source != s.drop_last()[k].target;
        assert(s[k] == s.drop_last()[k]);
    }
}

proof fn lemma_active_contains(s: Seq<OpModel>, k: int)
    requires
        0 <= k < s.len(),
        s[k].source != s[k].target,
    ensures
        active(s).contains(s[k]),
    decreases s.len(),
{
    let rest = active(s.drop_last());
    if k == s.len() - 1 {
        assert(active(s)[rest.len() as int] == s[k]);
    } else {
        assert(s.drop_last()[k] == s[k]);
        lemma_active_contains(s.drop_last(), k);
        let j = choose|j: int| 0 <= j < rest.len() && rest[j] == s[k];
        assert(active(s)[j] == s[k]);
    }
}

proof fn lemma_active_limits(s: Seq<OpModel>)
    requires
        within_limits(s),
    ensures
        within_limits(active(s)),
        active(s).len() <= s.len(),
    decreases s.len(),
{
    if s.len() > 0 {
        assert forall|i: int|
            0 <= i < s.drop_last().len() implies (#[trigger] s.drop_last()[i]).source.len()
            <= 0x1000_0000 && s.drop_last()[i].target.len() <= 0x1000_0000 by {
            assert(s.drop_last()[i] == s[i]);
        }
        lemma_active_limits(s.drop_last());
        assert(s.last() == s[s.len() - 1]);
    }
}

/// Drives a run: builds the rename map from proposed renames and hands it
/// to the solver. The interactive field carries an optional review session.
pub struct Renamer {
    pub interactive: Option<InterativeMode>,
}

impl Renamer {
    /// A plain, non-interactive runner.
    pub fn new() -> (r: Result<Renamer, Error>)
        ensures
            r matches Ok(rn) && rn.interactive is None,
    {
        Ok(Renamer { interactive: None })
    }

    /// A runner whose schedule will be reviewed interactively.
    pub fn new_with_interactive_mode() -> (r: Renamer)
        ensures
            r.interactive is Some,
    {
        Renamer { interactive: Some(InterativeMode::new()) }
    }

    /// Builds the rename map from proposed renames: drops entries that do
    /// not change the name, and rejects two entries claiming one target.
    pub fn get_rename_map(&self, candidates: &Vec<Operation>) -> (r: Result<RenameMap, Error>)
        ensures
            r is Ok <==> no_dup_targets(models(candidates@)),
            r matches Ok(m) ==> models(m@) == active(models(candidates@)),
            r matches Err(e) ==> e.kind is SameFilename,
    {
        let ghost cm = models(candidates@);
        let mut result: Vec<Operation> = Vec::new();
        let mut i: usize = 0;
        proof {
            assert(cm.take(0) =~= Seq::<OpModel>::empty());
            assert(models(result@) =~= active(cm.take(0)));
        }
        while i < candidates.len()
            invariant
                0 <= i <= cm.len(),
                cm == models(candidates@),
                models(result@) == active(cm.take(i as int)),
                no_dup_targets(cm.take(i as int)),
            decreases cm.len() - i,
        {
            let ghost oldr = models(result@);
            if !crate::solver::bytes_eq(&candidates[i].source, &candidates[i].target) {
                proof {
                    assert(cm[i as int].source != cm[i as int].target);
                }
                let mut j: usize = 0;
                while j < result.len()
                    invariant
                        0 <= j <= oldr.len(),
                        0 <= i < cm.len(),
                        cm == models(candidates@),
                        oldr == models(result@),
                        oldr == active(cm.take(i as int)),
                        cm[i as int].source != cm[i as int].target,
                        no_dup_targets(cm.take(i as int)),
                        forall|k: int|
                            0 <= k < j ==> (#[trigger] oldr[k]).target != cm[i as int].target,
                    decreases oldr.len() - j,
                {
                    if crate::solver::bytes_eq(&result[j].target, &candidates[i].target) {
                        proof {
                            assert(oldr[j as int].target == cm[i as int].target);
                            lemma_active_index(cm.take(i as int), j as int);
                            let k = choose|k: int|
                                0 <= k < cm.take(i as int).len() && (#[trigger] cm.take(
                                    i as int,
                                )[k]) == active(cm.take(i as int))[j as int] && cm.take(
                                    i as int,
                                )[k].source != cm.take(i as int)[k].target;
                            assert(cm[k] == oldr[j as int]);
                            assert(!no_dup_targets(cm));
                        }
                        return Err(Error { kind: ErrorKind::SameFilename, value: None });
                    }
                    j = j + 1;
                }
                let op = crate::solver::copy_op(&candidates[i]);
                result.push(op);
                proof {
                    assert(cm.take(i + 1).drop_last() =~= cm.take(i as int));
                    assert(cm.take(i + 1).last() == cm[i as int]);
                    assert(models(result@) =~= oldr.push(cm[i as int]));
                    assert(models(result@) == active(cm.take(i + 1)));
                    assert forall|k1: int, k2: int|
                        0 <= k1 < k2 < cm.take(i + 1).len() && (#[trigger] cm.take(i + 1)[k1]).source
                            != cm.take(i + 1)[k1].target && (#[trigger] cm.take(i + 1)[k2]).source
                            != cm.take(i + 1)[k2].target implies cm.take(i + 1)[k1].target
                        != cm.take(i + 1)[k2].target by {
                        if k2 == i as int {
                            lemma_active_contains(cm.take(i as int), k1);
                            let jr = choose|jr: int|
                                0 <= jr < oldr.len() && oldr[jr] == cm.take(i as int)[k1];
                            assert(oldr[jr].target != cm[i as int].target);
                        }
                    }
                }
            } else {
                proof {
                    assert(cm.take(i + 1).drop_last() =~= cm.take(i as int));
                    assert(cm.take(i + 1).last() == cm[i as int]);
                    assert(models(result@) == active(cm.take(i + 1)));
                    assert forall|k1: int, k2: int|
                        0 <= k1 < k2 < cm.take(i + 1).len() && (#[trigger] cm.take(i + 1)[k1]).source
                            != cm.take(i + 1)[k1].target && (#[trigger] cm.take(i + 1)[k2]).source
                            != cm.take(i + 1)[k2].target implies cm.take(i + 1)[k1].target
                        != cm.take(i + 1)[k2].target by {
                        assert(cm.take(i + 1)[k1] == cm.take(i as int)[k1]);
                    }
                }
            }
            i = i + 1;
        }
        proof {
            assert(cm.take(cm.len() as int) =~= cm);
        }
        Ok(result)
    }

    /// Whole compute path of a run: build the rename map, then solve the
    /// execution order.
    pub fn process(&self, candidates: &Vec<Operation>) -> (r: Result<Operations, Error>)
        requires
            within_limits(models(candidates@)),
        ensures
            !no_dup_targets(models(candidates@)) ==> (r matches Err(e) && e.kind is SameFilename),
            no_dup_targets(models(candidates@)) ==> (r is Ok <==> valid_map(
                active(models(candidates@)),
            )),
            no_dup_targets(models(candidates@)) ==> (r matches Ok(ops) ==> Some(models(ops@))
                == spec_solve(active(models(candidates@)))),
            no_dup_targets(models(candidates@)) ==> (r matches Err(e) ==> e.kind is SolveOrder),
    {
        let rename_map = match self.get_rename_map(candidates) {
            Ok(m) => m,
            Err(e) => {
                return Err(e);
            },
        };
        proof {
            lemma_active_limits(models(candidates@));
        }
        solve_rename_order(&rename_map)
    }
}

} // verus!
