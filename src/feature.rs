use vstd::prelude::*;

use crate::error::{Error, Warning};

verus! {

/// A capability that a backend may advertise.
#[derive(Debug, Clone, Copy, PartialEq, Eq, Hash, Structural)]
pub enum Feature {
    Public,
    Private,
    Authed,
    Anonymous,
    SingleNaming,
}

/// What the configuration says to do about a requested feature that the
/// chosen backend lacks.
#[derive(Debug, Clone, Copy, PartialEq, Eq, Structural)]
pub struct SafetyPolicy {
    pub warn_on_unsupported: Option<bool>,
    pub cancel_on_unsupported: Option<bool>,
}

pub open spec fn is_on(o: Option<bool>) -> bool {
    o == Some(true)
}

pub open spec fn negate(o: Option<bool>) -> Option<bool> {
    match o {
        Some(b) => Some(!b),
        None => None,
    }
}

/// The tri-state request of each feature: private and public are
/// complementary, authed and anonymous too, and single naming is on exactly
/// when a custom name was given.
pub open spec fn requested_features(private: Option<bool>, authed: Option<bool>, named: bool) -> Seq<
    (Feature, Option<bool>),
> {
    seq![
        (Feature::Private, private),
        (Feature::Public, negate(private)),
        (Feature::Authed, authed),
        (Feature::Anonymous, negate(authed)),
        (Feature::SingleNaming, if named { Some(true) } else { None }),
    ]
}

/// The request is on and the backend does not advertise the feature.
pub open spec fn lacks(bin: Seq<Feature>, req: (Feature, Option<bool>)) -> bool {
    is_on(req.1) && !bin.contains(req.0)
}

/// The warnings that one unsupported feature raises when the run goes on.
pub open spec fn warnings_for(f: Feature, warn: bool, cancel: bool) -> Seq<Warning> {
    (if warn { seq![Warning::Unsupported(f)] } else { Seq::empty() }) + (if cancel {
        seq![Warning::ForcedUnsupported(f)]
    } else {
        Seq::empty()
    })
}

/// The outcome of checking requests against a backend's features: the
/// warnings raised, in order, and the feature that cancels the run, if any.
/// Each unsupported feature warns when the policy warns; the first one
/// cancels when the policy cancels and nothing forces, after its warning;
/// when forced, each such feature adds a warning that the run goes on.
pub open spec fn negotiation(
    bin: Seq<Feature>,
    reqs: Seq<(Feature, Option<bool>)>,
    warn: bool,
    cancel: bool,
    force: bool,
) -> (Seq<Warning>, Option<Feature>)
    decreases reqs.len(),
{
    if reqs.len() == 0 {
        (Seq::empty(), None)
    } else {
        let rest = negotiation(bin, reqs.drop_first(), warn, cancel, force);
        let f = reqs[0].0;
        if lacks(bin, reqs[0]) {
            if cancel && !force {
                (warnings_for(f, warn, false), Some(f))
            } else {
                (warnings_for(f, warn, cancel) + rest.0, rest.1)
            }
        } else {
            rest
        }
    }
}

/// Builds the feature requests from the command-line intent.
pub fn cli_features(private: Option<bool>, authed: Option<bool>, named: bool) -> (r: Vec<
    (Feature, Option<bool>),
>)
    ensures
        r@ == requested_features(private, authed, named),
{
    let public = match private {
        Some(b) => Some(!b),
        None => None,
    };
    let anonymous = match authed {
        Some(b) => Some(!b),
        None => None,
    };
    let r = vec![
        (Feature::Private, private),
        (Feature::Public, public),
        (Feature::Authed, authed),
        (Feature::Anonymous, anonymous),
        (Feature::SingleNaming, if named { Some(true) } else { None }),
    ];
    assert(r@ =~= requested_features(private, authed, named));
    r
}

fn has_feature(bin: &Vec<Feature>, f: Feature) -> (r: bool)
    ensures
        r == bin@.contains(f),
{
    let mut i: usize = 0;
    while i < bin.len()
        invariant
            i <= bin@.len(),
            forall|j: int| 0 <= j < i ==> bin@[j] != f,
        decreases bin@.len() - i,
    {
        if bin[i] == f {
            return true;
        }
        i = i + 1;
    }
    false
}

fn flag_on(o: Option<bool>) -> (r: bool)
    ensures
        r == is_on(o),
{
    match o {
        Some(b) => b,
        None => false,
    }
}

/// Checks the requested features against those the backend `name`
/// advertises, under the safety policy; `force` downgrades a cancel to a
/// warning. Gives the warnings to report, then whether the run may go on.
/// Runs before any upload, so a mismatch never leaves a partial upload behind.
pub fn check_features(
    name: &str,
    bin: &Vec<Feature>,
    reqs: &Vec<(Feature, Option<bool>)>,
    policy: SafetyPolicy,
    force: Option<bool>,
) -> (r: (Vec<Warning>, Result<(), Error>))
    ensures
        r.0@ == negotiation(
            bin@,
            reqs@,
            is_on(policy.warn_on_unsupported),
            is_on(policy.cancel_on_unsupported),
            is_on(force),
        ).0,
        match negotiation(
            bin@,
            reqs@,
            is_on(policy.warn_on_unsupported),
            is_on(policy.cancel_on_unsupported),
            is_on(force),
        ).1 {
            None => r.1 is Ok,
            Some(f) => (r.1 matches Err(Error::UnsupportedFeature { backend, feature })
                && backend@ == name@ && feature == f),
        },
{
    let warn = flag_on(policy.warn_on_unsupported);
    let cancel = flag_on(policy.cancel_on_unsupported);
    let forced = flag_on(force);
    let ghost total = negotiation(bin@, reqs@, warn, cancel, forced);
    let mut out: Vec<Warning> = Vec::new();
    let mut i: usize = 0;
    proof {
        assert(reqs@.subrange(0, reqs@.len() as int) =~= reqs@);
        assert(out@ + total.0 =~= total.0);
    }
    while i < reqs.len()
        invariant
            i <= reqs@.len(),
            warn == is_on(policy.warn_on_unsupported),
            cancel == is_on(policy.cancel_on_unsupported),
            forced == is_on(force),
            total == negotiation(bin@, reqs@, warn, cancel, forced),
            total.0 == out@ + negotiation(
                bin@,
                reqs@.subrange(i as int, reqs@.len() as int),
                warn,
                cancel,
                forced,
            ).0,
            total.1 == negotiation(
                bin@,
                reqs@.subrange(i as int, reqs@.len() as int),
                warn,
                cancel,
                forced,
            ).1,
        decreases reqs@.len() - i,
    {
        let ghost tail = reqs@.subrange(i as int, reqs@.len() as int);
        assert(tail.drop_first() =~= reqs@.subrange(i + 1, reqs@.len() as int));
        let (f, status) = reqs[i];
        assert(tail[0] == (f, status));
        if flag_on(status) && !has_feature(bin, f) {
            let ghost before = out@;
            if warn {
                out.push(Warning::Unsupported(f));
            }
            if cancel && !forced {
                proof {
                    assert(out@ =~= before + warnings_for(f, warn, false));
                    assert(out@ + Seq::<Warning>::empty() =~= out@);
                }
                return (out, Err(Error::UnsupportedFeature { backend: name.to_owned(), feature: f }));
            }
            if cancel {
                out.push(Warning::ForcedUnsupported(f));
            }
            proof {
                assert(out@ =~= before + warnings_for(f, warn, cancel));
                let rest = negotiation(bin@, tail.drop_first(), warn, cancel, forced);
                assert(before + (warnings_for(f, warn, cancel) + rest.0) =~= out@ + rest.0);
            }
        }
        i = i + 1;
    }
    assert(out@ + Seq::<Warning>::empty() =~= out@);
    (out, Ok(()))
}

/// Forcing never lets the feature check fail, whatever the policy and the
/// requests.
pub proof fn law_forced_check_never_cancels(
    bin: Seq<Feature>,
    reqs: Seq<(Feature, Option<bool>)>,
    warn: bool,
    cancel: bool,
)
    ensures
        negotiation(bin, reqs, warn, cancel, true).1 is None,
    decreases reqs.len(),
{
    if reqs.len() > 0 {
        law_forced_check_never_cancels(bin, reqs.drop_first(), warn, cancel);
    }
}

/// Without force, under a cancelling policy, a requested feature that the
/// backend lacks makes the check fail.
pub proof fn law_cancel_policy_stops_unsupported(
    bin: Seq<Feature>,
    reqs: Seq<(Feature, Option<bool>)>,
    warn: bool,
    k: int,
)
    requires
        0 <= k < reqs.len(),
        lacks(bin, reqs[k]),
    ensures
        negotiation(bin, reqs, warn, true, false).1 is Some,
    decreases reqs.len(),
{
    if !lacks(bin, reqs[0]) {
        assert(reqs.drop_first()[k - 1] == reqs[k]);
        law_cancel_policy_stops_unsupported(bin, reqs.drop_first(), warn, k - 1);
    }
}

} // verus!
