use vstd::prelude::*;
use crate::binders::{create_fresh, lemma_pattern_binders_len, fresh_table, pattern_binders, valid_pattern};
use crate::fresh::NewStringGenerator;
use crate::sanitize::{san, sanitize_term, size, state_of, CtxSanitizeTerm, SError, SanState, SanitizeError};
use crate::table::{count_of, UsesMap};
use crate::term::{Rule, STerm};

verus! {

/// A rule whose terms have been sanitized, with the use counts gathered
/// from its replacement.
pub struct SanitizedRule {
    pub rule: Rule,
    pub uses: UsesMap,
}

/// Sanitizing a whole rule: the pattern's binders get fresh names, the
/// replacement is sanitized under them, then the pattern, whose erasures
/// read the use counts that the replacement left. Gives the new pattern, the
/// new replacement and the use counts, and the position of the name supply.
pub open spec fn san_rule(lhs: STerm, rhs: STerm, start: nat) -> (Result<(STerm, STerm, Map<Seq<char>, nat>), SError>, nat) {
    if !valid_pattern(lhs) {
        (Err(SError::InvalidPattern), start)
    } else {
        let names = pattern_binders(lhs);
        let st0 = SanState { tbl: fresh_table(names, start), uses: Map::empty(), next: start + names.len() };
        let (rr, st1) = san(rhs, false, st0);
        match rr {
            Err(e) => (Err(e), st1.next),
            Ok(r2) => {
                let (rl, st2) = san(lhs, true, st1);
                match rl {
                    Err(e) => (Err(e), st2.next),
                    Ok(l2) => (Ok((l2, r2, st2.uses)), st2.next),
                }
            },
        }
    }
}

/// Sanitizes a rule, drawing fresh names from `fresh`: the pattern's
/// binders, then the replacement, then the pattern. The name supply must have
/// room for the sizes of the pattern (twice) and of the replacement.
pub fn sanitize_rule(rule: &Rule, fresh: &mut NewStringGenerator) -> (r: Result<SanitizedRule, SanitizeError>)
    requires
        old(fresh).next() + 2 * size((*rule.lhs)@) + size((*rule.rhs)@) <= u64::MAX,
    ensures
        final(fresh).next() == san_rule((*rule.lhs)@, (*rule.rhs)@, old(fresh).next()).1,
        match r {
            Ok(sr) => {
                &&& sr.uses.wf()
                &&& san_rule((*rule.lhs)@, (*rule.rhs)@, old(fresh).next()).0 == Ok::<(STerm, STerm, Map<Seq<char>, nat>), SError>(
                    ((*sr.rule.lhs)@, (*sr.rule.rhs)@, sr.uses@),
                )
            },
            Err(e) => san_rule((*rule.lhs)@, (*rule.rhs)@, old(fresh).next()).0 == Err::<(STerm, STerm, Map<Seq<char>, nat>), SError>(e.view()),
        },
{
    let ghost start = fresh.next();
    let mut tbl = match create_fresh(rule, fresh) {
        Ok(t) => t,
        Err(e) => {
            return Err(e);
        },
    };
    proof {
        lemma_pattern_binders_len((*rule.lhs)@);
    }
    let mut ctx = CtxSanitizeTerm { uses: UsesMap::new(), fresh: NewStringGenerator::new() };
    core::mem::swap(&mut ctx.fresh, fresh);
    let ghost st0 = state_of(tbl, ctx);
    assert forall|k: Seq<char>| #[trigger] count_of(st0.uses, k) + size((*rule.rhs)@) <= u64::MAX by {}
    let rhs = sanitize_term(&rule.rhs, false, &mut tbl, &mut ctx);
    let rhs = match rhs {
        Ok(t) => t,
        Err(e) => {
            core::mem::swap(&mut ctx.fresh, fresh);
            return Err(e);
        },
    };
    let ghost st1 = state_of(tbl, ctx);
    assert forall|k: Seq<char>| #[trigger] count_of(st1.uses, k) + size((*rule.lhs)@) <= u64::MAX by {
        assert(count_of(st1.uses, k) <= count_of(st0.uses, k) + size((*rule.rhs)@));
    }
    let lhs = sanitize_term(&rule.lhs, true, &mut tbl, &mut ctx);
    core::mem::swap(&mut ctx.fresh, fresh);
    match lhs {
        Ok(lhs) => Ok(SanitizedRule { rule: Rule { lhs, rhs }, uses: ctx.uses }),
        Err(e) => Err(e),
    }
}

} // verus!
