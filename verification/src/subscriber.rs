//! The decisions of a key subscription's receive loop: what to publish for a
//! delivered message, when to drop one, how long to wait after a failed
//! receive, and when to give up. The host runs the loop: it receives, decodes
//! and resolves the routed fields, hands the outcome to [`subscriber_step`],
//! and performs the action it gets back.
use vstd::prelude::*;

verus! {

/// After this many failed receives in a row the subscription's stream ends.
pub const MAX_CONSECUTIVE_ERRORS: u32 = 5;

/// What one receive gave.
#[derive(Debug, Clone, PartialEq, Eq)]
pub enum Delivery {
    /// A message arrived and decoded. For a key fed by routes: whether each
    /// route's field resolved, in route order; empty for a key that takes the
    /// whole message.
    Decoded(Vec<bool>),
    /// A message arrived that does not decode against its declared type.
    Undecodable,
    /// Receiving failed.
    Failed,
}

/// What the receive loop does next.
#[derive(Debug, Clone, PartialEq, Eq)]
pub enum SubscriberAction {
    /// Publish one change setting the key to the whole message.
    EmitWhole,
    /// Publish one change setting the keys of these routes (indices into the
    /// routes, ascending) to their fields.
    EmitRoutes(Vec<usize>),
    /// Drop what came and receive the next message.
    Skip,
    /// Wait this many milliseconds, then receive again.
    Retry(u64),
    /// End the stream.
    Stop,
}

/// `2` to the power `k`.
pub open spec fn pow2(k: nat) -> nat
    decreases k,
{
    if k == 0 {
        1
    } else {
        2 * pow2((k - 1) as nat)
    }
}

/// `x`, or the largest `u64` when `x` does not fit.
pub open spec fn saturate(x: nat) -> u64 {
    if x > u64::MAX {
        u64::MAX
    } else {
        x as u64
    }
}

/// The wait after the `errors`-th failed receive in a row: 100 ms doubled
/// for each earlier failure (at most 62 doublings), saturating.
pub open spec fn retry_delay_ms(errors: u32) -> u64 {
    let shift: int = if errors - 1 < 62 { errors - 1 } else { 62 };
    saturate(100 * pow2(shift as nat))
}

/// The indices of the routes that resolved, ascending.
pub open spec fn resolved_routes(resolved: Seq<bool>) -> Seq<usize>
    decreases resolved.len(),
{
    if resolved.len() == 0 {
        Seq::empty()
    } else {
        resolved_routes(resolved.drop_last()) + if resolved.last() {
            seq![(resolved.len() - 1) as usize]
        } else {
            Seq::empty()
        }
    }
}

/// The wait after the `errors`-th failed receive in a row.
fn retry_delay(errors: u32) -> (d: u64)
    requires
        errors >= 1,
    ensures
        d == retry_delay_ms(errors),
{
    let shift: u32 = if errors - 1 < 62 { errors - 1 } else { 62 };
    let mut d: u64 = 100;
    let mut k: u32 = 0;
    while k < shift
        invariant
            k <= shift <= 62,
            d == saturate(100 * pow2(k as nat)),
        decreases shift - k,
    {
        let ghost before = 100 * pow2(k as nat);
        assert(100 * pow2((k + 1) as nat) == 2 * before) by (nonlinear_arith)
            requires
                pow2((k + 1) as nat) == 2 * pow2(k as nat),
                before == 100 * pow2(k as nat),
        ;
        d = if d > u64::MAX / 2 {
            u64::MAX
        } else {
            d * 2
        };
        k += 1;
    }
    d
}

/// One decision of the receive loop, from the count of failed receives in a
/// row so far and what the last receive gave, to the new count and what to do.
///
/// - A decoded message for a whole-message key is published; one for a
///   routed key publishes the routes that resolved, all in one change, or is
///   dropped when none did. A publication resets the count; a drop keeps it.
/// - An undecodable message is dropped; the count is kept.
/// - A failed receive counts one more failure: at `MAX_CONSECUTIVE_ERRORS`
///   the stream ends, before that the loop waits [`retry_delay_ms`] and
///   tries again.
pub fn subscriber_step(errors: u32, delivery: &Delivery) -> (r: (u32, SubscriberAction))
    requires
        errors < MAX_CONSECUTIVE_ERRORS,
    ensures
        match delivery {
            Delivery::Decoded(resolved) => if resolved@.len() == 0 {
                r == (0u32, SubscriberAction::EmitWhole)
            } else if resolved_routes(resolved@).len() == 0 {
                r == (errors, SubscriberAction::Skip)
            } else {
                r.0 == 0 && (r.1 matches SubscriberAction::EmitRoutes(v) && v@ == resolved_routes(resolved@))
            },
            Delivery::Undecodable => r == (errors, SubscriberAction::Skip),
            Delivery::Failed => if errors + 1 >= MAX_CONSECUTIVE_ERRORS {
                r == ((errors + 1) as u32, SubscriberAction::Stop)
            } else {
                r == ((errors + 1) as u32, SubscriberAction::Retry(retry_delay_ms((errors + 1) as u32)))
            },
        },
{
    match delivery {
        Delivery::Decoded(resolved) => {
            if resolved.len() == 0 {
                return (0, SubscriberAction::EmitWhole);
            }
            let mut landed: Vec<usize> = Vec::new();
            let mut i: usize = 0;
            while i < resolved.len()
                invariant
                    i <= resolved@.len(),
                    landed@ == resolved_routes(resolved@.take(i as int)),
                decreases resolved@.len() - i,
            {
                proof {
                    assert(resolved@.take(i + 1).drop_last() =~= resolved@.take(i as int));
                    assert(resolved@.take(i + 1).last() == resolved@[i as int]);
                }
                if resolved[i] {
                    landed.push(i);
                    assert(landed@ =~= resolved_routes(resolved@.take(i + 1)));
                } else {
                    assert(landed@ =~= resolved_routes(resolved@.take(i + 1)));
                }
                i += 1;
            }
            assert(resolved@.take(resolved@.len() as int) =~= resolved@);
            if landed.len() == 0 {
                (errors, SubscriberAction::Skip)
            } else {
                (0, SubscriberAction::EmitRoutes(landed))
            }
        },
        Delivery::Undecodable => (errors, SubscriberAction::Skip),
        Delivery::Failed => {
            let e = errors + 1;
            if e >= MAX_CONSECUTIVE_ERRORS {
                (e, SubscriberAction::Stop)
            } else {
                (e, SubscriberAction::Retry(retry_delay(e)))
            }
        },
    }
}

/// Each failed receive in a row waits twice as long as the one before, while
/// the wait fits and fewer than 63 failures came before.
pub proof fn lemma_retry_delay_doubles(errors: u32)
    requires
        1 <= errors < 62,
        2 * (retry_delay_ms(errors) as int) <= u64::MAX,
    ensures
        retry_delay_ms((errors + 1) as u32) == 2 * retry_delay_ms(errors),
{
    let k = (errors - 1) as nat;
    assert(pow2(k + 1) == 2 * pow2(k));
    assert(100 * pow2(k + 1) == 2 * (100 * pow2(k))) by (nonlinear_arith)
        requires
            pow2(k + 1) == 2 * pow2(k),
    ;
}

} // verus!
