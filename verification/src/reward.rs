//! Rewards and penalties: which validators earned what in the previous
//! epoch, and the default scheme that turns that into balance changes.

use vstd::prelude::*;
use crate::attestation::{CheckedAttestation, contains_id};
use crate::casper::{CasperContext, epoch_before};
use crate::store::{CasperStore, ValidatorEntry, balance_of, sum_balances, active_ids, lemma_balance_of_bound};
use crate::isqrt::{integer_sqrt, isqrt_spec};

verus! {

/// Rewards for Casper.
#[derive(Clone, Copy, Debug, PartialEq, Eq, Structural)]
pub enum CasperRewardType {
    /// The attestation has an expected source.
    ExpectedSource,
    /// The validator is active, but does not have an attestation with expected source.
    NoExpectedSource,
    /// The attestation has an expected target.
    ExpectedTarget,
    /// The validator is active, but does not have an attestation with expected target.
    NoExpectedTarget,
}

/// Rewards for the beacon chain.
#[derive(Clone, Copy, Debug, PartialEq, Eq, Structural)]
pub enum BeaconRewardType {
    /// The validator attested on the expected head.
    ExpectedHead,
    /// The validator is active, but does not attest on the expected head.
    NoExpectedHead,
    /// Inclusion distance of an attestation.
    InclusionDistance(u64),
}

/// A kind of reward whose values can be compared.
pub trait RewardKind: Copy {
    /// Whether two rewards are the same.
    fn same_kind(&self, other: &Self) -> (r: bool)
        ensures
            r == (*self == *other),
    ;
}

impl RewardKind for CasperRewardType {
    fn same_kind(&self, other: &Self) -> (r: bool) {
        match (self, other) {
            (CasperRewardType::ExpectedSource, CasperRewardType::ExpectedSource) => true,
            (CasperRewardType::NoExpectedSource, CasperRewardType::NoExpectedSource) => true,
            (CasperRewardType::ExpectedTarget, CasperRewardType::ExpectedTarget) => true,
            (CasperRewardType::NoExpectedTarget, CasperRewardType::NoExpectedTarget) => true,
            _ => false,
        }
    }
}

impl RewardKind for BeaconRewardType {
    fn same_kind(&self, other: &Self) -> (r: bool) {
        match (self, other) {
            (BeaconRewardType::ExpectedHead, BeaconRewardType::ExpectedHead) => true,
            (BeaconRewardType::NoExpectedHead, BeaconRewardType::NoExpectedHead) => true,
            (BeaconRewardType::InclusionDistance(a), BeaconRewardType::InclusionDistance(b)) => *a == *b,
            _ => false,
        }
    }
}

/// Each id paired with the same reward.
pub open spec fn tagged<T>(ids: Seq<u64>, t: T) -> Seq<(u64, T)> {
    Seq::new(ids.len(), |i: int| (ids[i], t))
}

/// An attestation of `id` targeting `epoch`, canonical in slot or target where asked.
pub open spec fn covers(a: CheckedAttestation, epoch: u64, id: u64, need_slot: bool, need_target: bool) -> bool {
    &&& a.target_epoch == epoch
    &&& (need_slot ==> a.is_slot_canon)
    &&& (need_target ==> a.is_target_canon)
    &&& a.validator_ids@.contains(id)
}

/// Some attestation covers `id`.
pub open spec fn covered(atts: Seq<CheckedAttestation>, epoch: u64, id: u64, need_slot: bool, need_target: bool) -> bool {
    exists|i: int| 0 <= i < atts.len() && covers(#[trigger] atts[i], epoch, id, need_slot, need_target)
}

/// The ids, in order, that no attestation covers.
pub open spec fn uncovered(
    ids: Seq<u64>,
    atts: Seq<CheckedAttestation>,
    epoch: u64,
    need_slot: bool,
    need_target: bool,
) -> Seq<u64>
    decreases ids.len(),
{
    if ids.len() == 0 {
        Seq::empty()
    } else {
        let rest = uncovered(ids.drop_last(), atts, epoch, need_slot, need_target);
        if covered(atts, epoch, ids.last(), need_slot, need_target) {
            rest
        } else {
            rest.push(ids.last())
        }
    }
}

/// Beacon rewards earned by the attestations targeting `epoch`.
pub open spec fn beacon_attestation_rewards(atts: Seq<CheckedAttestation>, epoch: u64) -> Seq<(u64, BeaconRewardType)>
    decreases atts.len(),
{
    if atts.len() == 0 {
        Seq::empty()
    } else {
        let rest = beacon_attestation_rewards(atts.drop_last(), epoch);
        let a = atts.last();
        if a.target_epoch == epoch {
            let with_distance = rest + tagged(a.validator_ids@, BeaconRewardType::InclusionDistance(a.inclusion_distance));
            if a.is_slot_canon {
                with_distance + tagged(a.validator_ids@, BeaconRewardType::ExpectedHead)
            } else {
                with_distance
            }
        } else {
            rest
        }
    }
}

/// Casper rewards earned by the attestations targeting `epoch`.
pub open spec fn casper_attestation_rewards(atts: Seq<CheckedAttestation>, epoch: u64) -> Seq<(u64, CasperRewardType)>
    decreases atts.len(),
{
    if atts.len() == 0 {
        Seq::empty()
    } else {
        let rest = casper_attestation_rewards(atts.drop_last(), epoch);
        let a = atts.last();
        if a.target_epoch == epoch {
            let with_source = rest + tagged(a.validator_ids@, CasperRewardType::ExpectedSource);
            if a.is_target_canon {
                with_source + tagged(a.validator_ids@, CasperRewardType::ExpectedTarget)
            } else {
                with_source
            }
        } else {
            rest
        }
    }
}

/// All beacon rewards of the store's previous epoch.
pub open spec fn beacon_rewards_spec(store: CasperStore) -> Seq<(u64, BeaconRewardType)> {
    let prev = epoch_before(store.epoch);
    let atts = store.pending_attestations@;
    beacon_attestation_rewards(atts, prev) + tagged(
        uncovered(crate::store::active_ids(store.validators@, prev), atts, prev, true, false),
        BeaconRewardType::NoExpectedHead,
    )
}

/// All Casper rewards: attestations of the store's previous epoch, and the
/// validators active in the context's previous epoch that missed them.
pub open spec fn casper_rewards_spec(context: CasperContext, store: CasperStore) -> Seq<(u64, CasperRewardType)> {
    let prev = epoch_before(store.epoch);
    let atts = store.pending_attestations@;
    let active = crate::store::active_ids(store.validators@, epoch_before(context.epoch));
    casper_attestation_rewards(atts, prev)
        + tagged(uncovered(active, atts, prev, false, false), CasperRewardType::NoExpectedSource)
        + tagged(uncovered(active, atts, prev, false, true), CasperRewardType::NoExpectedTarget)
}

/// The ids whose reward is `a` or `b`, in order.
pub open spec fn combined_spec<T>(rewards: Seq<(u64, T)>, a: T, b: T) -> Seq<u64>
    decreases rewards.len(),
{
    if rewards.len() == 0 {
        Seq::empty()
    } else {
        let rest = combined_spec(rewards.drop_last(), a, b);
        let (v, t) = rewards.last();
        if t == a || t == b { rest.push(v) } else { rest }
    }
}

/// Append each id with the same reward.
pub fn push_rewards<T: Copy>(rewards: &mut Vec<(u64, T)>, ids: &Vec<u64>, reward: T)
    ensures
        final(rewards)@ == old(rewards)@ + tagged(ids@, reward),
{
    let ghost start = rewards@;
    let mut j: usize = 0;
    while j < ids.len()
        invariant
            j <= ids@.len(),
            rewards@ == start + tagged(ids@.take(j as int), reward),
        decreases ids@.len() - j,
    {
        rewards.push((ids[j], reward));
        j = j + 1;
        proof {
            assert(rewards@ =~= start + tagged(ids@.take(j as int), reward));
        }
    }
    proof {
        assert(ids@.take(ids@.len() as int) =~= ids@);
    }
}

/// Whether an attestation in the list covers `id`.
fn is_covered(atts: &Vec<CheckedAttestation>, epoch: u64, id: u64, need_slot: bool, need_target: bool) -> (r: bool)
    ensures
        r == covered(atts@, epoch, id, need_slot, need_target),
{
    let mut i: usize = 0;
    while i < atts.len()
        invariant
            i <= atts@.len(),
            forall|k: int| 0 <= k < i ==> !covers(#[trigger] atts@[k], epoch, id, need_slot, need_target),
        decreases atts@.len() - i,
    {
        let a = &atts[i];
        if a.target_epoch == epoch && (!need_slot || a.is_slot_canon) && (!need_target || a.is_target_canon)
            && contains_id(&a.validator_ids, id) {
            proof {
                assert(covers(atts@[i as int], epoch, id, need_slot, need_target));
            }
            return true;
        }
        i = i + 1;
    }
    false
}

/// The listed ids that no attestation covers, in order.
fn uncovered_ids(ids: &Vec<u64>, atts: &Vec<CheckedAttestation>, epoch: u64, need_slot: bool, need_target: bool) -> (r: Vec<u64>)
    ensures
        r@ == uncovered(ids@, atts@, epoch, need_slot, need_target),
{
    let mut r: Vec<u64> = Vec::new();
    let mut i: usize = 0;
    while i < ids.len()
        invariant
            i <= ids@.len(),
            r@ == uncovered(ids@.take(i as int), atts@, epoch, need_slot, need_target),
        decreases ids@.len() - i,
    {
        proof {
            assert(ids@.take(i + 1).drop_last() =~= ids@.take(i as int));
        }
        if !is_covered(atts, epoch, ids[i], need_slot, need_target) {
            r.push(ids[i]);
        }
        i = i + 1;
    }
    proof {
        assert(ids@.take(ids@.len() as int) =~= ids@);
    }
    r
}

/// Rewards of the beacon chain for the previous epoch: inclusion distance
/// and expected head for each attestation, and no expected head for each
/// active validator that did not attest on it.
pub fn beacon_rewards(store: &CasperStore) -> (r: Vec<(u64, BeaconRewardType)>)
    ensures
        r@ == beacon_rewards_spec(*store),
{
    let prev = store.previous_epoch();
    let active = store.active_validators(prev);
    let mut rewards: Vec<(u64, BeaconRewardType)> = Vec::new();
    let mut i: usize = 0;
    while i < store.pending_attestations.len()
        invariant
            i <= store.pending_attestations@.len(),
            prev == epoch_before(store.epoch),
            rewards@ == beacon_attestation_rewards(store.pending_attestations@.take(i as int), prev),
        decreases store.pending_attestations@.len() - i,
    {
        proof {
            assert(store.pending_attestations@.take(i + 1).drop_last() =~= store.pending_attestations@.take(i as int));
        }
        let a = &store.pending_attestations[i];
        if a.target_epoch == prev {
            push_rewards(&mut rewards, &a.validator_ids, BeaconRewardType::InclusionDistance(a.inclusion_distance));
            if a.is_slot_canon {
                push_rewards(&mut rewards, &a.validator_ids, BeaconRewardType::ExpectedHead);
            }
        }
        i = i + 1;
    }
    proof {
        assert(store.pending_attestations@.take(store.pending_attestations@.len() as int) =~= store.pending_attestations@);
    }
    let missed = uncovered_ids(&active, &store.pending_attestations, prev, true, false);
    push_rewards(&mut rewards, &missed, BeaconRewardType::NoExpectedHead);
    rewards
}

/// Rewards of Casper: expected source and target for each attestation of
/// the previous epoch, and their absence for each validator active in the
/// context's previous epoch that missed them.
pub fn casper_rewards(context: &CasperContext, store: &CasperStore) -> (r: Vec<(u64, CasperRewardType)>)
    ensures
        r@ == casper_rewards_spec(*context, *store),
{
    let active = store.active_validators(context.previous_epoch());
    let prev = store.previous_epoch();
    let mut rewards: Vec<(u64, CasperRewardType)> = Vec::new();
    let mut i: usize = 0;
    while i < store.pending_attestations.len()
        invariant
            i <= store.pending_attestations@.len(),
            prev == epoch_before(store.epoch),
            rewards@ == casper_attestation_rewards(store.pending_attestations@.take(i as int), prev),
        decreases store.pending_attestations@.len() - i,
    {
        proof {
            assert(store.pending_attestations@.take(i + 1).drop_last() =~= store.pending_attestations@.take(i as int));
        }
        let a = &store.pending_attestations[i];
        if a.target_epoch == prev {
            push_rewards(&mut rewards, &a.validator_ids, CasperRewardType::ExpectedSource);
            if a.is_target_canon {
                push_rewards(&mut rewards, &a.validator_ids, CasperRewardType::ExpectedTarget);
            }
        }
        i = i + 1;
    }
    proof {
        assert(store.pending_attestations@.take(store.pending_attestations@.len() as int) =~= store.pending_attestations@);
    }
    let no_source = uncovered_ids(&active, &store.pending_attestations, prev, false, false);
    let no_target = uncovered_ids(&active, &store.pending_attestations, prev, false, true);
    push_rewards(&mut rewards, &no_source, CasperRewardType::NoExpectedSource);
    push_rewards(&mut rewards, &no_target, CasperRewardType::NoExpectedTarget);
    rewards
}

/// The validators whose reward is `a` or `b`, in order.
pub fn combined_validators<T: RewardKind>(rewards: &[(u64, T)], a: &T, b: &T) -> (r: Vec<u64>)
    ensures
        r@ == combined_spec(rewards@, *a, *b),
{
    let mut ret: Vec<u64> = Vec::new();
    let mut i: usize = 0;
    while i < rewards.len()
        invariant
            i <= rewards@.len(),
            ret@ == combined_spec(rewards@.take(i as int), *a, *b),
        decreases rewards@.len() - i,
    {
        proof {
            assert(rewards@.take(i + 1).drop_last() =~= rewards@.take(i as int));
        }
        let (v, t) = rewards[i];
        if t.same_kind(a) || t.same_kind(b) {
            ret.push(v);
        }
        i = i + 1;
    }
    proof {
        assert(rewards@.take(rewards@.len() as int) =~= rewards@);
    }
    ret
}

/// Constants of the default reward scheme.
#[derive(Clone, Copy, Debug)]
pub struct DefaultSchemeConfig {
    /// Base reward quotient.
    pub base_reward_quotient: u128,
    /// Inactivity penalty quotient.
    pub inactivity_penalty_quotient: u128,
    /// Includer reward quotient.
    pub includer_reward_quotient: u128,
    /// Minimum attestation inclusion delay.
    pub min_attestation_inclusion_delay: u64,
    /// Whistleblower reward quotient.
    pub whistleblower_reward_quotient: u128,
}

/// A change to a validator's balance.
#[derive(Clone, Copy, Debug, PartialEq, Eq, Structural)]
pub enum RewardAction {
    /// Add to the balance.
    Add(u128),
    /// Take from the balance, stopping at zero.
    Sub(u128),
    /// Take from the balance and exit the validator.
    Penalize(u128),
}

/// `x`, with zero read as one.
pub open spec fn at_least_one(x: nat) -> nat {
    if x == 0 { 1 } else { x }
}

/// Total balance of the validators active in the store's previous epoch.
pub open spec fn previous_total(store: CasperStore) -> nat {
    sum_balances(store.validators@, active_ids(store.validators@, epoch_before(store.epoch)))
}

/// Base reward of `id`, given the previous epoch's total balance.
pub open spec fn base_reward_spec(vals: Seq<ValidatorEntry>, prev_total: nat, cfg: DefaultSchemeConfig, id: u64) -> nat {
    balance_of(vals, id) / at_least_one(isqrt_spec(prev_total) / (cfg.base_reward_quotient as nat)) / 5
}

/// Inactivity penalty of `id` after `esf` epochs without finality.
pub open spec fn inactivity_penalty_spec(
    vals: Seq<ValidatorEntry>,
    prev_total: nat,
    cfg: DefaultSchemeConfig,
    esf: u64,
    id: u64,
) -> nat {
    base_reward_spec(vals, prev_total, cfg, id) + balance_of(vals, id) * (esf as nat) / (cfg.inactivity_penalty_quotient as nat) / 2
}

/// Inclusion delay penalty of `id` for an attestation included `distance` slots late.
pub open spec fn inclusion_penalty_spec(
    vals: Seq<ValidatorEntry>,
    prev_total: nat,
    cfg: DefaultSchemeConfig,
    id: u64,
    distance: u64,
) -> int {
    let b = base_reward_spec(vals, prev_total, cfg, id);
    b - b * at_least_one(cfg.min_attestation_inclusion_delay as nat) / at_least_one(distance as nat)
}

/// Beacon actions while finality is recent.
pub open spec fn near_beacon_actions(
    entries: Seq<(u64, BeaconRewardType)>,
    vals: Seq<ValidatorEntry>,
    cfg: DefaultSchemeConfig,
    prev_total: nat,
    head_total: nat,
) -> Seq<(u64, RewardAction)>
    decreases entries.len(),
{
    if entries.len() == 0 {
        Seq::empty()
    } else {
        let rest = near_beacon_actions(entries.drop_last(), vals, cfg, prev_total, head_total);
        let (v, t) = entries.last();
        let b = base_reward_spec(vals, prev_total, cfg, v);
        match t {
            BeaconRewardType::ExpectedHead => rest.push((v, RewardAction::Add((b * head_total / prev_total) as u128))),
            BeaconRewardType::NoExpectedHead => rest.push((v, RewardAction::Sub(b as u128))),
            BeaconRewardType::InclusionDistance(d) => rest.push((v, RewardAction::Add(
                (b / at_least_one(cfg.min_attestation_inclusion_delay as nat) / at_least_one(d as nat)) as u128,
            ))),
        }
    }
}

/// Casper actions while finality is recent.
pub open spec fn near_casper_actions(
    entries: Seq<(u64, CasperRewardType)>,
    vals: Seq<ValidatorEntry>,
    cfg: DefaultSchemeConfig,
    prev_total: nat,
    source_total: nat,
    target_total: nat,
) -> Seq<(u64, RewardAction)>
    decreases entries.len(),
{
    if entries.len() == 0 {
        Seq::empty()
    } else {
        let rest = near_casper_actions(entries.drop_last(), vals, cfg, prev_total, source_total, target_total);
        let (v, t) = entries.last();
        let b = base_reward_spec(vals, prev_total, cfg, v);
        match t {
            CasperRewardType::ExpectedSource => rest.push((v, RewardAction::Add((b * source_total / prev_total) as u128))),
            CasperRewardType::NoExpectedSource => rest.push((v, RewardAction::Sub(b as u128))),
            CasperRewardType::ExpectedTarget => rest.push((v, RewardAction::Add((b * target_total / prev_total) as u128))),
            CasperRewardType::NoExpectedTarget => rest.push((v, RewardAction::Sub(b as u128))),
        }
    }
}

/// Beacon actions after a long time without finality.
pub open spec fn far_beacon_actions(
    entries: Seq<(u64, BeaconRewardType)>,
    vals: Seq<ValidatorEntry>,
    cfg: DefaultSchemeConfig,
    prev_total: nat,
    esf: u64,
) -> Seq<(u64, RewardAction)>
    decreases entries.len(),
{
    if entries.len() == 0 {
        Seq::empty()
    } else {
        let rest = far_beacon_actions(entries.drop_last(), vals, cfg, prev_total, esf);
        let (v, t) = entries.last();
        match t {
            BeaconRewardType::ExpectedHead => rest,
            BeaconRewardType::NoExpectedHead => rest.push(
                (v, RewardAction::Sub(inactivity_penalty_spec(vals, prev_total, cfg, esf, v) as u128)),
            ),
            BeaconRewardType::InclusionDistance(d) => rest.push(
                (v, RewardAction::Sub(inclusion_penalty_spec(vals, prev_total, cfg, v, d) as u128)),
            ),
        }
    }
}

/// Casper actions after a long time without finality.
pub open spec fn far_casper_actions(
    entries: Seq<(u64, CasperRewardType)>,
    vals: Seq<ValidatorEntry>,
    cfg: DefaultSchemeConfig,
    prev_total: nat,
    esf: u64,
) -> Seq<(u64, RewardAction)>
    decreases entries.len(),
{
    if entries.len() == 0 {
        Seq::empty()
    } else {
        let rest = far_casper_actions(entries.drop_last(), vals, cfg, prev_total, esf);
        let (v, t) = entries.last();
        if t == CasperRewardType::NoExpectedSource {
            rest.push((v, RewardAction::Sub(base_reward_spec(vals, prev_total, cfg, v) as u128))).push(
                (v, RewardAction::Sub(inactivity_penalty_spec(vals, prev_total, cfg, esf, v) as u128)),
            )
        } else {
            rest
        }
    }
}

/// How many entries record a missed source.
pub open spec fn missed_sources(entries: Seq<(u64, CasperRewardType)>) -> nat
    decreases entries.len(),
{
    if entries.len() == 0 {
        0
    } else {
        missed_sources(entries.drop_last()) + if entries.last().1 == CasperRewardType::NoExpectedSource { 1nat } else { 0nat }
    }
}

/// Far from finality, the Casper actions hold two per missed source, at
/// the place of the entry among the missed sources.
proof fn lemma_far_casper_positions(
    entries: Seq<(u64, CasperRewardType)>,
    vals: Seq<ValidatorEntry>,
    cfg: DefaultSchemeConfig,
    prev_total: nat,
    esf: u64,
    i: int,
)
    requires
        0 <= i < entries.len(),
        entries[i].1 == CasperRewardType::NoExpectedSource,
    ensures
        far_casper_actions(entries, vals, cfg, prev_total, esf).len() == 2 * missed_sources(entries),
        far_casper_actions(entries, vals, cfg, prev_total, esf)[(2 * missed_sources(entries.take(i))) as int]
            == (entries[i].0, RewardAction::Sub(base_reward_spec(vals, prev_total, cfg, entries[i].0) as u128)),
        far_casper_actions(entries, vals, cfg, prev_total, esf)[2 * missed_sources(entries.take(i)) + 1int]
            == (entries[i].0, RewardAction::Sub(inactivity_penalty_spec(vals, prev_total, cfg, esf, entries[i].0) as u128)),
    decreases entries.len(),
{
    lemma_far_casper_len(entries, vals, cfg, prev_total, esf);
    let rest = entries.drop_last();
    lemma_far_casper_len(rest, vals, cfg, prev_total, esf);
    if i == entries.len() - 1 {
        assert(entries.take(i) =~= rest);
    } else {
        lemma_far_casper_positions(rest, vals, cfg, prev_total, esf, i);
        assert(rest.take(i) =~= entries.take(i));
        assert(rest[i] == entries[i]);
        lemma_missed_sources_prefix(rest, i);
    }
}

/// Far from finality, the Casper actions hold two per missed source.
proof fn lemma_far_casper_len(
    entries: Seq<(u64, CasperRewardType)>,
    vals: Seq<ValidatorEntry>,
    cfg: DefaultSchemeConfig,
    prev_total: nat,
    esf: u64,
)
    ensures
        far_casper_actions(entries, vals, cfg, prev_total, esf).len() == 2 * missed_sources(entries),
    decreases entries.len(),
{
    if entries.len() > 0 {
        lemma_far_casper_len(entries.drop_last(), vals, cfg, prev_total, esf);
    }
}

/// Before a missed source there are fewer missed sources than in the whole.
proof fn lemma_missed_sources_prefix(entries: Seq<(u64, CasperRewardType)>, i: int)
    requires
        0 <= i < entries.len(),
        entries[i].1 == CasperRewardType::NoExpectedSource,
    ensures
        missed_sources(entries.take(i)) + 1 <= missed_sources(entries),
    decreases entries.len(),
{
    if i < entries.len() - 1 {
        lemma_missed_sources_prefix(entries.drop_last(), i);
        assert(entries.drop_last().take(i) =~= entries.take(i));
    } else {
        assert(entries.take(i) =~= entries.drop_last());
    }
}

/// How many beacon entries are not an expected head.
pub open spec fn beacon_losses(entries: Seq<(u64, BeaconRewardType)>) -> nat
    decreases entries.len(),
{
    if entries.len() == 0 {
        0
    } else {
        beacon_losses(entries.drop_last()) + if entries.last().1 == BeaconRewardType::ExpectedHead { 0nat } else { 1nat }
    }
}

/// Far from finality, the beacon actions hold one per entry that is not an
/// expected head, at the place of the entry among those.
proof fn lemma_far_beacon_positions(
    entries: Seq<(u64, BeaconRewardType)>,
    vals: Seq<ValidatorEntry>,
    cfg: DefaultSchemeConfig,
    prev_total: nat,
    esf: u64,
    i: int,
)
    requires
        0 <= i < entries.len(),
        entries[i].1 != BeaconRewardType::ExpectedHead,
    ensures
        far_beacon_actions(entries, vals, cfg, prev_total, esf).len() == beacon_losses(entries),
        beacon_losses(entries.take(i)) < beacon_losses(entries),
        far_beacon_actions(entries, vals, cfg, prev_total, esf)[beacon_losses(entries.take(i)) as int]
            == far_beacon_actions(entries.take(i + 1), vals, cfg, prev_total, esf).last(),
    decreases entries.len(),
{
    lemma_far_beacon_len(entries, vals, cfg, prev_total, esf);
    let rest = entries.drop_last();
    lemma_far_beacon_len(rest, vals, cfg, prev_total, esf);
    if i == entries.len() - 1 {
        assert(entries.take(i) =~= rest);
        assert(entries.take(i + 1) =~= entries);
    } else {
        lemma_far_beacon_positions(rest, vals, cfg, prev_total, esf, i);
        assert(rest.take(i) =~= entries.take(i));
        assert(rest.take(i + 1) =~= entries.take(i + 1));
        assert(rest[i] == entries[i]);
    }
}

/// Far from finality, the beacon actions hold one per entry that is not an expected head.
proof fn lemma_far_beacon_len(
    entries: Seq<(u64, BeaconRewardType)>,
    vals: Seq<ValidatorEntry>,
    cfg: DefaultSchemeConfig,
    prev_total: nat,
    esf: u64,
)
    ensures
        far_beacon_actions(entries, vals, cfg, prev_total, esf).len() == beacon_losses(entries),
    decreases entries.len(),
{
    if entries.len() > 0 {
        lemma_far_beacon_len(entries.drop_last(), vals, cfg, prev_total, esf);
    }
}

/// More than four epochs from finality, beacon entries only lose: an
/// expected head gives nothing; a missed head loses the inactivity penalty
/// (the base reward, its balance over a fifth of the scaled square root of
/// the previous epoch's active balance, plus half its balance times the
/// epochs since finality over the inactivity quotient); an inclusion
/// distance `d` loses the base reward less the base reward times the
/// minimum inclusion delay over `d` (each at least one). The losses come
/// first, in the order of their entries.
pub proof fn lemma_far_beacon_losses(
    store: CasperStore,
    beacon: Seq<(u64, BeaconRewardType)>,
    casper: Seq<(u64, CasperRewardType)>,
    esf: u64,
    cfg: DefaultSchemeConfig,
    i: int,
)
    requires
        esf > 4,
        0 <= i < beacon.len(),
        beacon[i].1 != BeaconRewardType::ExpectedHead,
    ensures
        ({
            let vals = store.validators@;
            let total = sum_balances(vals, active_ids(vals, epoch_before(store.epoch)));
            let v = beacon[i].0;
            let base = balance_of(vals, v) / at_least_one(isqrt_spec(total) / (cfg.base_reward_quotient as nat)) / 5;
            let actions = default_rewards_spec(store, beacon, casper, esf, cfg);
            &&& actions.len() == beacon_losses(beacon) + 2 * missed_sources(casper)
            &&& actions[beacon_losses(beacon.take(i)) as int] == (v, match beacon[i].1 {
                BeaconRewardType::InclusionDistance(d) => RewardAction::Sub((base - base
                    * at_least_one(cfg.min_attestation_inclusion_delay as nat) / at_least_one(d as nat)) as u128),
                _ => RewardAction::Sub((base + balance_of(vals, v) * (esf as nat)
                    / (cfg.inactivity_penalty_quotient as nat) / 2) as u128),
            })
        }),
{
    let vals = store.validators@;
    let total = previous_total(store);
    lemma_far_beacon_positions(beacon, vals, cfg, total, esf, i);
    lemma_far_casper_len(casper, vals, cfg, total, esf);
    let pre = beacon.take(i + 1);
    assert(pre.drop_last() =~= beacon.take(i));
    assert(pre.last() == beacon[i]);
}

/// More than four epochs from finality, each validator that missed the
/// expected source loses twice: its base reward (its balance over a fifth
/// of the scaled square root of the previous epoch's active balance), then
/// its inactivity penalty (the base reward plus half its balance times the
/// epochs since finality over the inactivity quotient). The two come
/// together, after the beacon actions, in the order of the missed sources,
/// and nothing else comes from the Casper entries.
pub proof fn lemma_far_missed_source_loses_twice(
    store: CasperStore,
    beacon: Seq<(u64, BeaconRewardType)>,
    casper: Seq<(u64, CasperRewardType)>,
    esf: u64,
    cfg: DefaultSchemeConfig,
    i: int,
)
    requires
        esf > 4,
        0 <= i < casper.len(),
        casper[i].1 == CasperRewardType::NoExpectedSource,
    ensures
        ({
            let vals = store.validators@;
            let total = sum_balances(vals, active_ids(vals, epoch_before(store.epoch)));
            let v = casper[i].0;
            let base = balance_of(vals, v) / at_least_one(isqrt_spec(total) / (cfg.base_reward_quotient as nat)) / 5;
            let penalty = base + balance_of(vals, v) * (esf as nat) / (cfg.inactivity_penalty_quotient as nat) / 2;
            let actions = default_rewards_spec(store, beacon, casper, esf, cfg);
            let beacon_part = beacon_losses(beacon);
            let at = (beacon_part + 2 * missed_sources(casper.take(i))) as int;
            &&& actions.len() == beacon_part + 2 * missed_sources(casper)
            &&& actions[at] == (v, RewardAction::Sub(base as u128))
            &&& actions[at + 1] == (v, RewardAction::Sub(penalty as u128))
        }),
{
    let vals = store.validators@;
    let total = previous_total(store);
    lemma_far_casper_positions(casper, vals, cfg, total, esf, i);
    lemma_missed_sources_prefix(casper, i);
    lemma_far_beacon_len(beacon, vals, cfg, total, esf);
}

/// The action of one beacon entry within four epochs of finality.
spec fn near_beacon_one(
    e: (u64, BeaconRewardType),
    vals: Seq<ValidatorEntry>,
    cfg: DefaultSchemeConfig,
    prev_total: nat,
    head_total: nat,
) -> (u64, RewardAction) {
    near_beacon_actions(Seq::empty().push(e), vals, cfg, prev_total, head_total).last()
}

/// The action of one Casper entry within four epochs of finality.
spec fn near_casper_one(
    e: (u64, CasperRewardType),
    vals: Seq<ValidatorEntry>,
    cfg: DefaultSchemeConfig,
    prev_total: nat,
    source_total: nat,
    target_total: nat,
) -> (u64, RewardAction) {
    near_casper_actions(Seq::empty().push(e), vals, cfg, prev_total, source_total, target_total).last()
}

/// Within four epochs of finality each beacon entry gives one action, in order.
proof fn lemma_near_beacon_at(
    entries: Seq<(u64, BeaconRewardType)>,
    vals: Seq<ValidatorEntry>,
    cfg: DefaultSchemeConfig,
    prev_total: nat,
    head_total: nat,
    i: int,
)
    requires
        0 <= i < entries.len(),
    ensures
        near_beacon_actions(entries, vals, cfg, prev_total, head_total).len() == entries.len(),
        near_beacon_actions(entries, vals, cfg, prev_total, head_total)[i]
            == near_beacon_one(entries[i], vals, cfg, prev_total, head_total),
    decreases entries.len(),
{
    let rest = entries.drop_last();
    if i < entries.len() - 1 {
        lemma_near_beacon_at(rest, vals, cfg, prev_total, head_total, i);
        assert(rest[i] == entries[i]);
    } else {
        if rest.len() > 0 {
            lemma_near_beacon_at(rest, vals, cfg, prev_total, head_total, 0);
        } else {
            assert(near_beacon_actions(rest, vals, cfg, prev_total, head_total).len() == 0);
        }
        let one = Seq::<(u64, BeaconRewardType)>::empty().push(entries[i]);
        assert(one.drop_last() =~= Seq::<(u64, BeaconRewardType)>::empty());
        assert(one.last() == entries.last());
        assert(near_beacon_actions(one.drop_last(), vals, cfg, prev_total, head_total).len() == 0);
    }
}

/// Within four epochs of finality each Casper entry gives one action, in order.
proof fn lemma_near_casper_at(
    entries: Seq<(u64, CasperRewardType)>,
    vals: Seq<ValidatorEntry>,
    cfg: DefaultSchemeConfig,
    prev_total: nat,
    source_total: nat,
    target_total: nat,
    i: int,
)
    requires
        0 <= i < entries.len(),
    ensures
        near_casper_actions(entries, vals, cfg, prev_total, source_total, target_total).len() == entries.len(),
        near_casper_actions(entries, vals, cfg, prev_total, source_total, target_total)[i]
            == near_casper_one(entries[i], vals, cfg, prev_total, source_total, target_total),
    decreases entries.len(),
{
    let rest = entries.drop_last();
    if i < entries.len() - 1 {
        lemma_near_casper_at(rest, vals, cfg, prev_total, source_total, target_total, i);
        assert(rest[i] == entries[i]);
    } else {
        if rest.len() > 0 {
            lemma_near_casper_at(rest, vals, cfg, prev_total, source_total, target_total, 0);
        } else {
            assert(near_casper_actions(rest, vals, cfg, prev_total, source_total, target_total).len() == 0);
        }
        let one = Seq::<(u64, CasperRewardType)>::empty().push(entries[i]);
        assert(one.drop_last() =~= Seq::<(u64, CasperRewardType)>::empty());
        assert(one.last() == entries.last());
        assert(near_casper_actions(one.drop_last(), vals, cfg, prev_total, source_total, target_total).len() == 0);
    }
}

/// Within four epochs of finality every reward entry gives one action, the
/// beacon entries first, each in its place. With `b` the validator's base
/// reward (its balance over a fifth of the scaled square root of the
/// previous epoch's active balance): an expected head earns `b` times the
/// balance of the validators with a head entry over the previous total, an
/// expected source or target likewise with the source or target entries; a
/// missed head, source or target loses `b`; an inclusion distance `d`
/// earns `b` over the minimum inclusion delay over `d` (each at least one).
pub proof fn lemma_near_finality_actions(
    store: CasperStore,
    beacon: Seq<(u64, BeaconRewardType)>,
    casper: Seq<(u64, CasperRewardType)>,
    esf: u64,
    cfg: DefaultSchemeConfig,
)
    requires
        esf <= 4,
    ensures
        ({
            let vals = store.validators@;
            let total = sum_balances(vals, active_ids(vals, epoch_before(store.epoch)));
            let base = |v: u64| balance_of(vals, v) / at_least_one(isqrt_spec(total) / (cfg.base_reward_quotient as nat)) / 5;
            let head_total = sum_balances(vals, combined_spec(beacon, BeaconRewardType::ExpectedHead, BeaconRewardType::NoExpectedHead));
            let source_total = sum_balances(vals, combined_spec(casper, CasperRewardType::ExpectedSource, CasperRewardType::NoExpectedSource));
            let target_total = sum_balances(vals, combined_spec(casper, CasperRewardType::ExpectedTarget, CasperRewardType::NoExpectedTarget));
            let actions = default_rewards_spec(store, beacon, casper, esf, cfg);
            &&& actions.len() == beacon.len() + casper.len()
            &&& forall|i: int| 0 <= i < beacon.len() ==> #[trigger] actions[i] == (beacon[i].0, match beacon[i].1 {
                BeaconRewardType::ExpectedHead => RewardAction::Add((base(beacon[i].0) * head_total / total) as u128),
                BeaconRewardType::NoExpectedHead => RewardAction::Sub(base(beacon[i].0) as u128),
                BeaconRewardType::InclusionDistance(d) => RewardAction::Add(
                    (base(beacon[i].0) / at_least_one(cfg.min_attestation_inclusion_delay as nat) / at_least_one(d as nat)) as u128),
            })
            &&& forall|j: int| 0 <= j < casper.len() ==> #[trigger] actions[beacon.len() + j] == (casper[j].0, match casper[j].1 {
                CasperRewardType::ExpectedSource => RewardAction::Add((base(casper[j].0) * source_total / total) as u128),
                CasperRewardType::NoExpectedSource => RewardAction::Sub(base(casper[j].0) as u128),
                CasperRewardType::ExpectedTarget => RewardAction::Add((base(casper[j].0) * target_total / total) as u128),
                CasperRewardType::NoExpectedTarget => RewardAction::Sub(base(casper[j].0) as u128),
            })
        }),
{
    let vals = store.validators@;
    let total = previous_total(store);
    let head_total = sum_balances(vals, combined_spec(beacon, BeaconRewardType::ExpectedHead, BeaconRewardType::NoExpectedHead));
    let source_total = sum_balances(vals, combined_spec(casper, CasperRewardType::ExpectedSource, CasperRewardType::NoExpectedSource));
    let target_total = sum_balances(vals, combined_spec(casper, CasperRewardType::ExpectedTarget, CasperRewardType::NoExpectedTarget));
    let bp = near_beacon_actions(beacon, vals, cfg, total, head_total);
    let cp = near_casper_actions(casper, vals, cfg, total, source_total, target_total);
    if beacon.len() > 0 {
        lemma_near_beacon_at(beacon, vals, cfg, total, head_total, 0);
    }
    if casper.len() > 0 {
        lemma_near_casper_at(casper, vals, cfg, total, source_total, target_total, 0);
    }
    assert forall|i: int| 0 <= i < beacon.len() implies #[trigger] (bp + cp)[i] == near_beacon_one(beacon[i], vals, cfg, total, head_total) by {
        lemma_near_beacon_at(beacon, vals, cfg, total, head_total, i);
    }
    assert forall|j: int| 0 <= j < casper.len() implies #[trigger] (bp + cp)[beacon.len() + j]
        == near_casper_one(casper[j], vals, cfg, total, source_total, target_total) by {
        lemma_near_casper_at(casper, vals, cfg, total, source_total, target_total, j);
    }
}

/// Some beacon entry has a reward of the given kind.
pub open spec fn beacon_has(entries: Seq<(u64, BeaconRewardType)>, t: BeaconRewardType) -> bool {
    exists|i: int| 0 <= i < entries.len() && #[trigger] entries[i].1 == t
}

/// Some beacon entry is an inclusion distance.
pub open spec fn beacon_has_distance(entries: Seq<(u64, BeaconRewardType)>) -> bool {
    exists|i: int| 0 <= i < entries.len() && (#[trigger] entries[i].1) is InclusionDistance
}

/// Some Casper entry has a reward of the given kind.
pub open spec fn casper_has(entries: Seq<(u64, CasperRewardType)>, t: CasperRewardType) -> bool {
    exists|i: int| 0 <= i < entries.len() && #[trigger] entries[i].1 == t
}

/// The reward actions of the default scheme.
pub open spec fn default_rewards_spec(
    store: CasperStore,
    beacon: Seq<(u64, BeaconRewardType)>,
    casper: Seq<(u64, CasperRewardType)>,
    esf: u64,
    cfg: DefaultSchemeConfig,
) -> Seq<(u64, RewardAction)> {
    let vals = store.validators@;
    let prev_total = previous_total(store);
    if esf <= 4 {
        let head_total = sum_balances(vals, combined_spec(beacon, BeaconRewardType::ExpectedHead, BeaconRewardType::NoExpectedHead));
        let source_total = sum_balances(vals, combined_spec(casper, CasperRewardType::ExpectedSource, CasperRewardType::NoExpectedSource));
        let target_total = sum_balances(vals, combined_spec(casper, CasperRewardType::ExpectedTarget, CasperRewardType::NoExpectedTarget));
        near_beacon_actions(beacon, vals, cfg, prev_total, head_total)
            + near_casper_actions(casper, vals, cfg, prev_total, source_total, target_total)
    } else {
        far_beacon_actions(beacon, vals, cfg, prev_total, esf) + far_casper_actions(casper, vals, cfg, prev_total, esf)
    }
}

/// The inputs on which the default scheme divides by no zero and its sums
/// fit: the balances involved fit in 64 bits.
pub open spec fn default_rewards_defined(
    store: CasperStore,
    beacon: Seq<(u64, BeaconRewardType)>,
    casper: Seq<(u64, CasperRewardType)>,
    esf: u64,
    cfg: DefaultSchemeConfig,
) -> bool {
    let vals = store.validators@;
    let prev_total = previous_total(store);
    &&& prev_total <= u64::MAX
    &&& if esf <= 4 {
        &&& (beacon.len() > 0 || casper.len() > 0) ==> cfg.base_reward_quotient > 0
        &&& (beacon_has(beacon, BeaconRewardType::ExpectedHead)
            || casper_has(casper, CasperRewardType::ExpectedSource)
            || casper_has(casper, CasperRewardType::ExpectedTarget)) ==> prev_total > 0
        &&& sum_balances(vals, combined_spec(beacon, BeaconRewardType::ExpectedHead, BeaconRewardType::NoExpectedHead)) <= u64::MAX
        &&& sum_balances(vals, combined_spec(casper, CasperRewardType::ExpectedSource, CasperRewardType::NoExpectedSource)) <= u64::MAX
        &&& sum_balances(vals, combined_spec(casper, CasperRewardType::ExpectedTarget, CasperRewardType::NoExpectedTarget)) <= u64::MAX
    } else {
        &&& (beacon_has(beacon, BeaconRewardType::NoExpectedHead) || beacon_has_distance(beacon)
            || casper_has(casper, CasperRewardType::NoExpectedSource)) ==> cfg.base_reward_quotient > 0
        &&& (beacon_has(beacon, BeaconRewardType::NoExpectedHead)
            || casper_has(casper, CasperRewardType::NoExpectedSource)) ==> cfg.inactivity_penalty_quotient > 0
        &&& forall|i: int| 0 <= i < beacon.len() && (#[trigger] beacon[i].1) is InclusionDistance ==>
            inclusion_penalty_spec(vals, prev_total, cfg, beacon[i].0, beacon[i].1->0) >= 0
    }
}

/// Base reward of `id`: its balance over the scaled square root of the total.
fn base_reward(store: &CasperStore, prev_total: u128, cfg: &DefaultSchemeConfig, id: u64) -> (r: u128)
    requires
        prev_total <= u64::MAX,
        cfg.base_reward_quotient > 0,
    ensures
        r == base_reward_spec(store.validators@, prev_total as nat, *cfg, id),
        r <= u64::MAX,
{
    let root = integer_sqrt(prev_total);
    let q = root / cfg.base_reward_quotient;
    let q = if q < 1 { 1 } else { q };
    let balance = store.balance(id) as u128;
    proof {
        lemma_balance_of_bound(store.validators@, id);
    }
    balance / q / 5
}

/// Inactivity penalty of `id`: its base reward and a share of its balance
/// that grows with the epochs since finality.
fn inactivity_penalty(store: &CasperStore, prev_total: u128, cfg: &DefaultSchemeConfig, esf: u64, id: u64) -> (r: u128)
    requires
        prev_total <= u64::MAX,
        cfg.base_reward_quotient > 0,
        cfg.inactivity_penalty_quotient > 0,
    ensures
        r == inactivity_penalty_spec(store.validators@, prev_total as nat, *cfg, esf, id),
{
    let b = base_reward(store, prev_total, cfg, id);
    let balance = store.balance(id) as u128;
    proof {
        lemma_balance_of_bound(store.validators@, id);
        assert(balance * esf <= u64::MAX * u64::MAX) by (nonlinear_arith)
            requires
                balance <= u64::MAX,
                esf <= u64::MAX,
        ;
    }
    let share = balance * (esf as u128) / cfg.inactivity_penalty_quotient / 2;
    proof {
        let prod = (balance as int) * (esf as int);
        assert(share <= prod / 2) by {
            vstd::arithmetic::div_mod::lemma_div_is_ordered_by_denominator(
                prod, 1, cfg.inactivity_penalty_quotient as int);
            vstd::arithmetic::div_mod::lemma_div_is_ordered(
                prod / (cfg.inactivity_penalty_quotient as int), prod, 2);
        }
    }
    b + share
}

/// The default reward scheme: justification and finalization rewards.
/// Within four epochs of finality validators earn their share of the
/// attesting balance and lose their base reward for what they missed;
/// later on they only lose, and more the longer finality is away.
pub fn default_scheme_rewards(
    store: &CasperStore,
    beacon_rewards: &[(u64, BeaconRewardType)],
    casper_rewards: &[(u64, CasperRewardType)],
    epochs_since_finality: u64,
    config: &DefaultSchemeConfig,
) -> (r: Vec<(u64, RewardAction)>)
    requires
        default_rewards_defined(*store, beacon_rewards@, casper_rewards@, epochs_since_finality, *config),
    ensures
        r@ == default_rewards_spec(*store, beacon_rewards@, casper_rewards@, epochs_since_finality, *config),
{
    let ghost vals = store.validators@;
    let prev_total = crate::store::active_total_balance(store, store.previous_epoch());
    let esf = epochs_since_finality;
    let mut rewards: Vec<(u64, RewardAction)> = Vec::new();
    if esf <= 4 {
        let head = combined_validators(beacon_rewards, &BeaconRewardType::ExpectedHead, &BeaconRewardType::NoExpectedHead);
        let head_total = store.total_balance(head.as_slice());
        let source = combined_validators(casper_rewards, &CasperRewardType::ExpectedSource, &CasperRewardType::NoExpectedSource);
        let source_total = store.total_balance(source.as_slice());
        let target = combined_validators(casper_rewards, &CasperRewardType::ExpectedTarget, &CasperRewardType::NoExpectedTarget);
        let target_total = store.total_balance(target.as_slice());
        let mut i: usize = 0;
        while i < beacon_rewards.len()
            invariant
                i <= beacon_rewards@.len(),
                vals == store.validators@,
                default_rewards_defined(*store, beacon_rewards@, casper_rewards@, esf, *config),
                esf <= 4,
                prev_total == previous_total(*store),
                head_total == sum_balances(vals, combined_spec(beacon_rewards@, BeaconRewardType::ExpectedHead, BeaconRewardType::NoExpectedHead)),
                rewards@ == near_beacon_actions(beacon_rewards@.take(i as int), vals, *config, prev_total as nat, head_total as nat),
            decreases beacon_rewards@.len() - i,
        {
            proof {
                assert(beacon_rewards@.take(i + 1).drop_last() =~= beacon_rewards@.take(i as int));
            }
            let (v, t) = beacon_rewards[i];
            let b = base_reward(store, prev_total, config, v);
            match t {
                BeaconRewardType::ExpectedHead => {
                    proof {
                        assert(beacon_has(beacon_rewards@, BeaconRewardType::ExpectedHead)) by {
                            assert(beacon_rewards@[i as int].1 == BeaconRewardType::ExpectedHead);
                        }
                        assert(b * head_total <= u64::MAX * u64::MAX) by (nonlinear_arith)
                            requires
                                b <= u64::MAX,
                                head_total <= u64::MAX,
                        ;
                    }
                    rewards.push((v, RewardAction::Add(b * head_total / prev_total)));
                },
                BeaconRewardType::NoExpectedHead => {
                    rewards.push((v, RewardAction::Sub(b)));
                },
                BeaconRewardType::InclusionDistance(d) => {
                    let distance: u128 = if d == 0 { 1 } else { d as u128 };
                    let delay: u128 = if config.min_attestation_inclusion_delay == 0 {
                        1
                    } else {
                        config.min_attestation_inclusion_delay as u128
                    };
                    proof {
                        vstd::arithmetic::div_mod::lemma_div_is_ordered_by_denominator(b as int, 1, delay as int);
                        vstd::arithmetic::div_mod::lemma_div_is_ordered_by_denominator((b / delay) as int, 1, distance as int);
                    }
                    rewards.push((v, RewardAction::Add(b / delay / distance)));
                },
            }
            i = i + 1;
        }
        proof {
            assert(beacon_rewards@.take(beacon_rewards@.len() as int) =~= beacon_rewards@);
        }
        let ghost beacon_part = rewards@;
        let mut j: usize = 0;
        while j < casper_rewards.len()
            invariant
                j <= casper_rewards@.len(),
                vals == store.validators@,
                default_rewards_defined(*store, beacon_rewards@, casper_rewards@, esf, *config),
                esf <= 4,
                prev_total == previous_total(*store),
                source_total == sum_balances(vals, combined_spec(casper_rewards@, CasperRewardType::ExpectedSource, CasperRewardType::NoExpectedSource)),
                target_total == sum_balances(vals, combined_spec(casper_rewards@, CasperRewardType::ExpectedTarget, CasperRewardType::NoExpectedTarget)),
                rewards@ == beacon_part + near_casper_actions(casper_rewards@.take(j as int), vals, *config,
                    prev_total as nat, source_total as nat, target_total as nat),
            decreases casper_rewards@.len() - j,
        {
            proof {
                assert(casper_rewards@.take(j + 1).drop_last() =~= casper_rewards@.take(j as int));
            }
            let (v, t) = casper_rewards[j];
            let b = base_reward(store, prev_total, config, v);
            match t {
                CasperRewardType::ExpectedSource => {
                    proof {
                        assert(casper_has(casper_rewards@, CasperRewardType::ExpectedSource)) by {
                            assert(casper_rewards@[j as int].1 == CasperRewardType::ExpectedSource);
                        }
                        assert(b * source_total <= u64::MAX * u64::MAX) by (nonlinear_arith)
                            requires
                                b <= u64::MAX,
                                source_total <= u64::MAX,
                        ;
                    }
                    rewards.push((v, RewardAction::Add(b * source_total / prev_total)));
                },
                CasperRewardType::NoExpectedSource => {
                    rewards.push((v, RewardAction::Sub(b)));
                },
                CasperRewardType::ExpectedTarget => {
                    proof {
                        assert(casper_has(casper_rewards@, CasperRewardType::ExpectedTarget)) by {
                            assert(casper_rewards@[j as int].1 == CasperRewardType::ExpectedTarget);
                        }
                        assert(b * target_total <= u64::MAX * u64::MAX) by (nonlinear_arith)
                            requires
                                b <= u64::MAX,
                                target_total <= u64::MAX,
                        ;
                    }
                    rewards.push((v, RewardAction::Add(b * target_total / prev_total)));
                },
                CasperRewardType::NoExpectedTarget => {
                    rewards.push((v, RewardAction::Sub(b)));
                },
            }
            j = j + 1;
            proof {
                assert(rewards@ =~= beacon_part + near_casper_actions(casper_rewards@.take(j as int), vals, *config,
                    prev_total as nat, source_total as nat, target_total as nat));
            }
        }
        proof {
            assert(casper_rewards@.take(casper_rewards@.len() as int) =~= casper_rewards@);
        }
    } else {
        let mut i: usize = 0;
        while i < beacon_rewards.len()
            invariant
                i <= beacon_rewards@.len(),
                vals == store.validators@,
                default_rewards_defined(*store, beacon_rewards@, casper_rewards@, esf, *config),
                esf > 4,
                prev_total == previous_total(*store),
                rewards@ == far_beacon_actions(beacon_rewards@.take(i as int), vals, *config, prev_total as nat, esf),
            decreases beacon_rewards@.len() - i,
        {
            proof {
                assert(beacon_rewards@.take(i + 1).drop_last() =~= beacon_rewards@.take(i as int));
            }
            let (v, t) = beacon_rewards[i];
            match t {
                BeaconRewardType::ExpectedHead => {},
                BeaconRewardType::NoExpectedHead => {
                    proof {
                        assert(beacon_has(beacon_rewards@, BeaconRewardType::NoExpectedHead)) by {
                            assert(beacon_rewards@[i as int].1 == BeaconRewardType::NoExpectedHead);
                        }
                    }
                    let p = inactivity_penalty(store, prev_total, config, esf, v);
                    rewards.push((v, RewardAction::Sub(p)));
                },
                BeaconRewardType::InclusionDistance(d) => {
                    proof {
                        assert(beacon_has_distance(beacon_rewards@)) by {
                            assert(beacon_rewards@[i as int].1 is InclusionDistance);
                        }
                    }
                    let b = base_reward(store, prev_total, config, v);
                    let distance: u128 = if d == 0 { 1 } else { d as u128 };
                    let delay: u128 = if config.min_attestation_inclusion_delay == 0 {
                        1
                    } else {
                        config.min_attestation_inclusion_delay as u128
                    };
                    proof {
                        assert(b * delay <= u64::MAX * u64::MAX) by (nonlinear_arith)
                            requires
                                b <= u64::MAX,
                                delay <= u64::MAX,
                        ;
                        assert(inclusion_penalty_spec(vals, prev_total as nat, *config, beacon_rewards@[i as int].0,
                            beacon_rewards@[i as int].1->0) >= 0);
                    }
                    rewards.push((v, RewardAction::Sub(b - b * delay / distance)));
                },
            }
            i = i + 1;
        }
        proof {
            assert(beacon_rewards@.take(beacon_rewards@.len() as int) =~= beacon_rewards@);
        }
        let ghost beacon_part = rewards@;
        let mut j: usize = 0;
        while j < casper_rewards.len()
            invariant
                j <= casper_rewards@.len(),
                vals == store.validators@,
                default_rewards_defined(*store, beacon_rewards@, casper_rewards@, esf, *config),
                esf > 4,
                prev_total == previous_total(*store),
                rewards@ == beacon_part + far_casper_actions(casper_rewards@.take(j as int), vals, *config, prev_total as nat, esf),
            decreases casper_rewards@.len() - j,
        {
            proof {
                assert(casper_rewards@.take(j + 1).drop_last() =~= casper_rewards@.take(j as int));
            }
            let (v, t) = casper_rewards[j];
            if t.same_kind(&CasperRewardType::NoExpectedSource) {
                proof {
                    assert(casper_has(casper_rewards@, CasperRewardType::NoExpectedSource)) by {
                        assert(casper_rewards@[j as int].1 == CasperRewardType::NoExpectedSource);
                    }
                }
                let b = base_reward(store, prev_total, config, v);
                rewards.push((v, RewardAction::Sub(b)));
                let p = inactivity_penalty(store, prev_total, config, esf, v);
                rewards.push((v, RewardAction::Sub(p)));
            }
            j = j + 1;
            proof {
                assert(rewards@ =~= beacon_part + far_casper_actions(casper_rewards@.take(j as int), vals, *config,
                    prev_total as nat, esf));
            }
        }
        proof {
            assert(casper_rewards@.take(casper_rewards@.len() as int) =~= casper_rewards@);
        }
    }
    rewards
}

/// Whistleblower rewards and penalties for the slashed validators.
pub open spec fn slash_actions(
    slashings: Seq<u64>,
    vals: Seq<ValidatorEntry>,
    cfg: DefaultSchemeConfig,
    whistleblower: u64,
) -> Seq<(u64, RewardAction)>
    decreases slashings.len(),
{
    if slashings.len() == 0 {
        Seq::empty()
    } else {
        let rest = slash_actions(slashings.drop_last(), vals, cfg, whistleblower);
        let v = slashings.last();
        let w = (balance_of(vals, v) / (cfg.whistleblower_reward_quotient as nat)) as u128;
        rest.push((whistleblower, RewardAction::Add(w))).push((v, RewardAction::Penalize(w)))
    }
}

/// The actions for slashings come two per slashed validator, in order.
proof fn lemma_slash_actions_at(slashings: Seq<u64>, vals: Seq<ValidatorEntry>, cfg: DefaultSchemeConfig, w: u64, i: int)
    requires
        0 <= i < slashings.len(),
    ensures
        slash_actions(slashings, vals, cfg, w).len() == 2 * slashings.len(),
        slash_actions(slashings, vals, cfg, w)[2 * i]
            == (w, RewardAction::Add((balance_of(vals, slashings[i]) / (cfg.whistleblower_reward_quotient as nat)) as u128)),
        slash_actions(slashings, vals, cfg, w)[2 * i + 1]
            == (slashings[i], RewardAction::Penalize((balance_of(vals, slashings[i]) / (cfg.whistleblower_reward_quotient as nat)) as u128)),
    decreases slashings.len(),
{
    let rest = slashings.drop_last();
    if i < slashings.len() - 1 {
        lemma_slash_actions_at(rest, vals, cfg, w, i);
        assert(rest[i] == slashings[i]);
    } else if rest.len() > 0 {
        lemma_slash_actions_at(rest, vals, cfg, w, 0);
    } else {
        assert(slash_actions(rest, vals, cfg, w).len() == 0);
    }
}

/// Each slashing rewards the whistleblower with the slashed validator's
/// balance over the whistleblower quotient and penalizes the slashed
/// validator by as much, the two in that order and the slashings in
/// theirs, before anything else; within four epochs of finality nothing
/// else is done.
pub proof fn lemma_slashings_reward_whistleblower(
    store: CasperStore,
    whistleblower: u64,
    slashings: Seq<u64>,
    esf: u64,
    cfg: DefaultSchemeConfig,
    i: int,
)
    requires
        0 <= i < slashings.len(),
    ensures
        ({
            let vals = store.validators@;
            let reward = (balance_of(vals, slashings[i]) / (cfg.whistleblower_reward_quotient as nat)) as u128;
            let actions = default_penalties_spec(store, whistleblower, slashings, esf, cfg);
            &&& actions[2 * i] == (whistleblower, RewardAction::Add(reward))
            &&& actions[2 * i + 1] == (slashings[i], RewardAction::Penalize(reward))
            &&& esf <= 4 ==> actions.len() == 2 * slashings.len()
        }),
{
    lemma_slash_actions_at(slashings, store.validators@, cfg, whistleblower, i);
}

/// Base reward used for penalties: the root quotient is not raised to one.
pub open spec fn penalty_base_spec(vals: Seq<ValidatorEntry>, prev_total: nat, cfg: DefaultSchemeConfig, id: u64) -> nat {
    balance_of(vals, id) / (isqrt_spec(prev_total) / (cfg.base_reward_quotient as nat)) / 5
}

/// Penalty of an active, unslashed validator after a long time without finality.
pub open spec fn inactivity_sub_spec(
    vals: Seq<ValidatorEntry>,
    prev_total: nat,
    cfg: DefaultSchemeConfig,
    esf: u64,
    id: u64,
) -> nat {
    let base = penalty_base_spec(vals, prev_total, cfg, id);
    (base + balance_of(vals, id) * (esf as nat) / (cfg.inactivity_penalty_quotient as nat) / 2) * 2 + base
}

/// Penalties of the listed validators that were not slashed.
pub open spec fn inactive_actions(
    ids: Seq<u64>,
    slashings: Seq<u64>,
    vals: Seq<ValidatorEntry>,
    prev_total: nat,
    cfg: DefaultSchemeConfig,
    esf: u64,
) -> Seq<(u64, RewardAction)>
    decreases ids.len(),
{
    if ids.len() == 0 {
        Seq::empty()
    } else {
        let rest = inactive_actions(ids.drop_last(), slashings, vals, prev_total, cfg, esf);
        let v = ids.last();
        if slashings.contains(v) {
            rest
        } else {
            rest.push((v, RewardAction::Sub(inactivity_sub_spec(vals, prev_total, cfg, esf, v) as u128)))
        }
    }
}

/// How many of the ids were not slashed.
pub open spec fn unslashed_count(ids: Seq<u64>, slashings: Seq<u64>) -> nat
    decreases ids.len(),
{
    if ids.len() == 0 {
        0
    } else {
        unslashed_count(ids.drop_last(), slashings) + if slashings.contains(ids.last()) { 0nat } else { 1nat }
    }
}

/// The inactivity penalties come one per unslashed id, in order.
proof fn lemma_inactive_actions_at(
    ids: Seq<u64>,
    slashings: Seq<u64>,
    vals: Seq<ValidatorEntry>,
    prev_total: nat,
    cfg: DefaultSchemeConfig,
    esf: u64,
    i: int,
)
    requires
        0 <= i < ids.len(),
        !slashings.contains(ids[i]),
    ensures
        inactive_actions(ids, slashings, vals, prev_total, cfg, esf).len() == unslashed_count(ids, slashings),
        inactive_actions(ids, slashings, vals, prev_total, cfg, esf)[unslashed_count(ids.take(i), slashings) as int]
            == (ids[i], RewardAction::Sub(inactivity_sub_spec(vals, prev_total, cfg, esf, ids[i]) as u128)),
    decreases ids.len(),
{
    lemma_inactive_len(ids, slashings, vals, prev_total, cfg, esf);
    let rest = ids.drop_last();
    lemma_inactive_len(rest, slashings, vals, prev_total, cfg, esf);
    if i == ids.len() - 1 {
        assert(ids.take(i) =~= rest);
    } else {
        lemma_inactive_actions_at(rest, slashings, vals, prev_total, cfg, esf, i);
        assert(rest.take(i) =~= ids.take(i));
        assert(rest[i] == ids[i]);
        lemma_unslashed_prefix(rest, slashings, i);
    }
}

/// Before an unslashed id there are fewer unslashed ids than in the whole.
proof fn lemma_unslashed_prefix(ids: Seq<u64>, slashings: Seq<u64>, i: int)
    requires
        0 <= i < ids.len(),
        !slashings.contains(ids[i]),
    ensures
        unslashed_count(ids.take(i), slashings) + 1 <= unslashed_count(ids, slashings),
    decreases ids.len(),
{
    if i < ids.len() - 1 {
        lemma_unslashed_prefix(ids.drop_last(), slashings, i);
        assert(ids.drop_last().take(i) =~= ids.take(i));
    } else {
        assert(ids.take(i) =~= ids.drop_last());
    }
}

/// The inactivity penalties come one per unslashed id.
proof fn lemma_inactive_len(
    ids: Seq<u64>,
    slashings: Seq<u64>,
    vals: Seq<ValidatorEntry>,
    prev_total: nat,
    cfg: DefaultSchemeConfig,
    esf: u64,
)
    ensures
        inactive_actions(ids, slashings, vals, prev_total, cfg, esf).len() == unslashed_count(ids, slashings),
    decreases ids.len(),
{
    if ids.len() > 0 {
        lemma_inactive_len(ids.drop_last(), slashings, vals, prev_total, cfg, esf);
    }
}

/// More than four epochs from finality, after the slashing actions, every
/// validator active in the previous epoch that was not slashed loses, in
/// order, twice its inactivity penalty plus its base reward: with `b` its
/// balance over a fifth of the scaled square root of the previous epoch's
/// active balance, `(b + balance * esf / inactivity quotient / 2) * 2 + b`.
pub proof fn lemma_far_inactive_penalized(
    store: CasperStore,
    whistleblower: u64,
    slashings: Seq<u64>,
    esf: u64,
    cfg: DefaultSchemeConfig,
    i: int,
)
    requires
        esf > 4,
        0 <= i < active_ids(store.validators@, epoch_before(store.epoch)).len(),
        !slashings.contains(active_ids(store.validators@, epoch_before(store.epoch))[i]),
    ensures
        ({
            let vals = store.validators@;
            let active = active_ids(vals, epoch_before(store.epoch));
            let total = sum_balances(vals, active);
            let v = active[i];
            let b = balance_of(vals, v) / (isqrt_spec(total) / (cfg.base_reward_quotient as nat)) / 5;
            let actions = default_penalties_spec(store, whistleblower, slashings, esf, cfg);
            &&& actions.len() == 2 * slashings.len() + unslashed_count(active, slashings)
            &&& actions[(2 * slashings.len() + unslashed_count(active.take(i), slashings)) as int]
                == (v, RewardAction::Sub(((b + balance_of(vals, v) * (esf as nat) / (cfg.inactivity_penalty_quotient as nat) / 2)
                    * 2 + b) as u128))
        }),
{
    let vals = store.validators@;
    let active = active_ids(vals, epoch_before(store.epoch));
    lemma_inactive_actions_at(active, slashings, vals, previous_total(store), cfg, esf, i);
    lemma_unslashed_prefix(active, slashings, i);
    if slashings.len() > 0 {
        lemma_slash_actions_at(slashings, vals, cfg, whistleblower, 0);
    } else {
        assert(slash_actions(slashings, vals, cfg, whistleblower).len() == 0);
    }
}

/// The penalty actions of the default scheme.
pub open spec fn default_penalties_spec(
    store: CasperStore,
    whistleblower: u64,
    slashings: Seq<u64>,
    esf: u64,
    cfg: DefaultSchemeConfig,
) -> Seq<(u64, RewardAction)> {
    let vals = store.validators@;
    slash_actions(slashings, vals, cfg, whistleblower) + if esf > 4 {
        inactive_actions(active_ids(vals, epoch_before(store.epoch)), slashings, vals, previous_total(store), cfg, esf)
    } else {
        Seq::empty()
    }
}

/// The inputs on which the penalties divide by no zero and fit.
pub open spec fn default_penalties_defined(
    store: CasperStore,
    slashings: Seq<u64>,
    esf: u64,
    cfg: DefaultSchemeConfig,
) -> bool {
    let vals = store.validators@;
    let prev_total = previous_total(store);
    let active = active_ids(vals, epoch_before(store.epoch));
    &&& slashings.len() > 0 ==> cfg.whistleblower_reward_quotient > 0
    &&& esf > 4 ==> prev_total <= u64::MAX
    &&& esf > 4 && (exists|i: int| 0 <= i < active.len() && !slashings.contains(#[trigger] active[i])) ==> {
        &&& cfg.base_reward_quotient > 0
        &&& isqrt_spec(prev_total) / (cfg.base_reward_quotient as nat) > 0
        &&& cfg.inactivity_penalty_quotient > 0
        &&& forall|i: int| 0 <= i < active.len() && !slashings.contains(#[trigger] active[i]) ==>
            inactivity_sub_spec(vals, prev_total, cfg, esf, active[i]) <= u128::MAX
    }
}

/// The default scheme for penalization: whistleblower rewards for each
/// slashing, and, long after finality, inactivity penalties for every
/// active validator that was not slashed.
pub fn default_scheme_penalties(
    store: &CasperStore,
    whistleblower: u64,
    slashings: &[u64],
    epochs_since_finality: u64,
    config: &DefaultSchemeConfig,
) -> (r: Vec<(u64, RewardAction)>)
    requires
        default_penalties_defined(*store, slashings@, epochs_since_finality, *config),
    ensures
        r@ == default_penalties_spec(*store, whistleblower, slashings@, epochs_since_finality, *config),
{
    let ghost vals = store.validators@;
    let esf = epochs_since_finality;
    let mut rewards: Vec<(u64, RewardAction)> = Vec::new();
    let mut i: usize = 0;
    while i < slashings.len()
        invariant
            i <= slashings@.len(),
            vals == store.validators@,
            slashings@.len() > 0 ==> config.whistleblower_reward_quotient > 0,
            rewards@ == slash_actions(slashings@.take(i as int), vals, *config, whistleblower),
        decreases slashings@.len() - i,
    {
        proof {
            assert(slashings@.take(i + 1).drop_last() =~= slashings@.take(i as int));
        }
        let v = slashings[i];
        let w = (store.balance(v) as u128) / config.whistleblower_reward_quotient;
        rewards.push((whistleblower, RewardAction::Add(w)));
        rewards.push((v, RewardAction::Penalize(w)));
        i = i + 1;
    }
    proof {
        assert(slashings@.take(slashings@.len() as int) =~= slashings@);
    }
    if esf > 4 {
        let prev = store.previous_epoch();
        let active = store.active_validators(prev);
        let prev_total = store.total_balance(active.as_slice());
        let ghost slash_part = rewards@;
        let mut j: usize = 0;
        while j < active.len()
            invariant
                j <= active@.len(),
                vals == store.validators@,
                esf > 4,
                active@ == active_ids(vals, epoch_before(store.epoch)),
                prev_total == previous_total(*store),
                default_penalties_defined(*store, slashings@, esf, *config),
                rewards@ == slash_part + inactive_actions(active@.take(j as int), slashings@, vals, prev_total as nat, *config, esf),
            decreases active@.len() - j,
        {
            proof {
                assert(active@.take(j + 1).drop_last() =~= active@.take(j as int));
            }
            let v = active[j];
            if !contains_slice(slashings, v) {
                proof {
                    assert(!slashings@.contains(active@[j as int]));
                }
                let root = integer_sqrt(prev_total);
                let q = root / config.base_reward_quotient;
                let balance = store.balance(v) as u128;
                proof {
                    lemma_balance_of_bound(vals, v);
                    assert(balance * esf <= u64::MAX * u64::MAX) by (nonlinear_arith)
                        requires
                            balance <= u64::MAX,
                            esf <= u64::MAX,
                    ;
                    vstd::arithmetic::div_mod::lemma_div_is_ordered_by_denominator(balance as int, 1, q as int);
                    let prod = (balance as int) * (esf as int);
                    vstd::arithmetic::div_mod::lemma_div_is_ordered_by_denominator(
                        prod, 1, config.inactivity_penalty_quotient as int);
                    vstd::arithmetic::div_mod::lemma_div_is_ordered(
                        prod / (config.inactivity_penalty_quotient as int), prod, 2);
                }
                let base = balance / q / 5;
                let inactivity = base + balance * (esf as u128) / config.inactivity_penalty_quotient / 2;
                rewards.push((v, RewardAction::Sub(inactivity * 2 + base)));
            }
            j = j + 1;
            proof {
                assert(rewards@ =~= slash_part + inactive_actions(active@.take(j as int), slashings@, vals,
                    prev_total as nat, *config, esf));
            }
        }
        proof {
            assert(active@.take(active@.len() as int) =~= active@);
        }
    }
    rewards
}

/// Whether a list of validator ids holds `v`.
pub(crate) fn contains_slice(ids: &[u64], v: u64) -> (r: bool)
    ensures
        r == ids@.contains(v),
{
    let mut i: usize = 0;
    while i < ids.len()
        invariant
            i <= ids@.len(),
            forall|j: int| 0 <= j < i ==> ids@[j] != v,
        decreases ids@.len() - i,
    {
        if ids[i] == v {
            proof {
                assert(ids@[i as int] == v);
            }
            return true;
        }
        i = i + 1;
    }
    false
}

} // verus!
