use vstd::prelude::*;

verus! {

/// Outcome of iterating one sample under an iteration cap.
#[derive(PartialEq, Eq, Structural, Clone, Copy, Debug)]
pub enum EscapeResult {
    /// The magnitude first exceeded the threshold at this 0-based iteration.
    Escaped(u32),
    /// No escape happened within the cap.
    Bounded,
}

/// Index of the first breach of the escape threshold in an orbit, if any.
/// `orbit[i]` tells whether the magnitude exceeded the threshold at step `i`.
pub open spec fn first_breach(orbit: Seq<bool>) -> Option<nat>
    decreases orbit.len(),
{
    if orbit.len() == 0 {
        None
    } else if orbit[0] {
        Some(0)
    } else {
        match first_breach(orbit.drop_first()) {
            Some(i) => Some(i + 1),
            None => None,
        }
    }
}

/// What an evaluation under `cap` reports for a sample whose true escape
/// iteration is `t`.
pub open spec fn capped(t: Option<nat>, cap: nat) -> EscapeResult {
    match t {
        Some(i) => if i < cap && i <= u32::MAX {
            EscapeResult::Escaped(i as u32)
        } else {
            EscapeResult::Bounded
        },
        None => EscapeResult::Bounded,
    }
}

/// The result of evaluating an orbit under `cap`.
pub open spec fn evaluation(orbit: Seq<bool>, cap: nat) -> EscapeResult {
    capped(first_breach(orbit), cap)
}

/// The escape iteration that a result reports, if any.
pub open spec fn reported(r: EscapeResult) -> Option<nat> {
    match r {
        EscapeResult::Escaped(i) => Some(i as nat),
        EscapeResult::Bounded => None,
    }
}

proof fn lemma_first_breach_prefix(orbit: Seq<bool>, n: nat)
    requires
        n <= orbit.len(),
    ensures
        match first_breach(orbit.take(n as int)) {
            Some(i) => first_breach(orbit) == Some(i) && i < n,
            None => forall|k: int| 0 <= k < n ==> !orbit[k],
        },
    decreases n,
{
    if n > 0 && !orbit[0] {
        lemma_first_breach_prefix(orbit.drop_first(), (n - 1) as nat);
        assert(orbit.take(n as int).drop_first() =~= orbit.drop_first().take(n - 1));
        assert forall|k: int| 0 <= k < n && first_breach(orbit.take(n as int)) is None implies !orbit[k] by {
            if k > 0 {
                assert(orbit[k] == orbit.drop_first()[k - 1]);
            }
        }
    }
}

/// Evaluates one sample under `cap` from the breach flags of its orbit:
/// `orbit[i]` tells whether the magnitude exceeded the escape threshold at
/// step `i`. Only the first `cap` steps are read; with `cap == 0` none is.
pub fn evaluate(orbit: &Vec<bool>, cap: u32) -> (r: EscapeResult)
    ensures
        r == evaluation(orbit@, cap as nat),
{
    let n: usize = if (cap as usize) < orbit.len() { cap as usize } else { orbit.len() };
    proof {
        lemma_first_breach_prefix(orbit@, n as nat);
    }
    let mut i: usize = 0;
    while i < n
        invariant
            n <= orbit@.len(),
            n <= cap,
            i <= n,
            forall|k: int| 0 <= k < i ==> !orbit@[k],
            match first_breach(orbit@.take(n as int)) {
                Some(j) => first_breach(orbit@) == Some(j) && j < n,
                None => forall|k: int| 0 <= k < n ==> !orbit@[k],
            },
        decreases n - i,
    {
        if orbit[i] {
            proof {
                lemma_first_breach_is_first(orbit@, i as nat);
            }
            return EscapeResult::Escaped(i as u32);
        }
        i = i + 1;
    }
    proof {
        if n == orbit@.len() {
            assert(orbit@.take(n as int) =~= orbit@);
        }
        lemma_first_breach_later(orbit@, n as nat);
    }
    EscapeResult::Bounded
}

proof fn lemma_first_breach_is_first(orbit: Seq<bool>, i: nat)
    requires
        i < orbit.len(),
        orbit[i as int],
        forall|k: int| 0 <= k < i ==> !orbit[k],
    ensures
        first_breach(orbit) == Some(i),
    decreases i,
{
    if i > 0 {
        let rest = orbit.drop_first();
        assert forall|k: int| 0 <= k < i - 1 implies !rest[k] by {
            assert(rest[k] == orbit[k + 1]);
        }
        lemma_first_breach_is_first(rest, (i - 1) as nat);
    }
}

proof fn lemma_first_breach_later(orbit: Seq<bool>, n: nat)
    requires
        n <= orbit.len(),
        forall|k: int| 0 <= k < n ==> !orbit[k],
    ensures
        match first_breach(orbit) {
            Some(j) => j >= n,
            None => true,
        },
    decreases n,
{
    if n > 0 {
        let rest = orbit.drop_first();
        assert forall|k: int| 0 <= k < n - 1 implies !rest[k] by {
            assert(rest[k] == orbit[k + 1]);
        }
        lemma_first_breach_later(rest, (n - 1) as nat);
    }
}

/// Narrows a result obtained under some cap to a smaller cap `cap`.
pub fn restrict(r: EscapeResult, cap: u32) -> (out: EscapeResult)
    ensures
        out == capped(reported(r), cap as nat),
{
    match r {
        EscapeResult::Escaped(i) => if i < cap {
            EscapeResult::Escaped(i)
        } else {
            EscapeResult::Bounded
        },
        EscapeResult::Bounded => EscapeResult::Bounded,
    }
}

/// A sample that escapes at iteration `i` under some cap escapes at that same
/// iteration under every larger cap.
pub proof fn lemma_escape_kept_under_larger_cap(orbit: Seq<bool>, c1: nat, c2: nat, i: u32)
    requires
        c1 < c2,
        evaluation(orbit, c1) == EscapeResult::Escaped(i),
    ensures
        evaluation(orbit, c2) == EscapeResult::Escaped(i),
{
}

/// A sample that stays bounded under some cap stays bounded under every
/// smaller cap.
pub proof fn lemma_bounded_kept_under_smaller_cap(orbit: Seq<bool>, cap: nat, smaller: nat)
    requires
        smaller < cap,
        evaluation(orbit, cap) == EscapeResult::Bounded,
    ensures
        evaluation(orbit, smaller) == EscapeResult::Bounded,
{
}

/// Narrowing the result of a larger cap to a smaller one gives exactly the
/// result of evaluating under the smaller cap.
pub proof fn lemma_restrict_matches_smaller_cap(t: Option<nat>, smaller: nat, cap: nat)
    requires
        smaller <= cap,
    ensures
        capped(reported(capped(t, cap)), smaller) == capped(t, smaller),
{
}

}
