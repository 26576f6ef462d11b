//! Membership changes as two log entries: the joint configuration, then the target.
//!
//! The joint entry names both voting sets and is in force from the moment it is appended, so between
//! it and the target every decision needs a majority of each half. There is no instant at which the
//! leaving half and the joining half can each reach a majority on their own, which is what a one-shot
//! swap of the voter list allows.

use super::config::{
    canon, law_canon_is_idempotent, law_canon_names_each_node_once, one_per_node, Configuration, ConfigurationView,
};
use super::progress::Progress;
use super::recovery::same_configuration;
use super::transfer::{best_of, best_target, eligible, eligible_targets, opt_tails};
use crate::cluster::metadata::{member_at, ClusterMetadata, ClusterMetadataView};
use crate::endpoint::{list_names, names, node, nodes};
use crate::lists::{lemma_joined_hold, lemma_take_all, lemma_take_grows};
use crate::text::{cat2, cat3, copy_list, debug_list, debug_texts, decimal, decimal_of, same_text, texts};
use vstd::prelude::*;

verus! {

/// Per entry, not per change, in nanoseconds: a change is two of these and pays it twice in the worst
/// case.
pub const CONFIG_COMMIT_TIMEOUT: u64 = 10_000_000_000;

/// Between two looks at the commit index, in milliseconds.
pub const COMMIT_POLL_MS: u64 = 20;

#[derive(Debug, PartialEq, Eq)]
pub enum ChangeError {
    /// The caller can retry elsewhere or later; nothing was appended.
    Refused(String),
    /// An entry is in the log and did not commit. The change is neither applied nor undone, and the
    /// next leader finishes or replaces it from the log.
    Stalled(String),
    /// The change removes this node, so leadership moved to the named voter and the change belongs
    /// there now. Nothing was appended here; the same request against that node applies it.
    Redirect(String),
}

pub ghost enum ChangeErrorView {
    Refused(Seq<char>),
    Stalled(Seq<char>),
    Redirect(Seq<char>),
}

impl View for ChangeError {
    type V = ChangeErrorView;

    open spec fn view(&self) -> ChangeErrorView {
        match *self {
            ChangeError::Refused(s) => ChangeErrorView::Refused(s@),
            ChangeError::Stalled(s) => ChangeErrorView::Stalled(s@),
            ChangeError::Redirect(s) => ChangeErrorView::Redirect(s@),
        }
    }
}

impl ChangeError {
    pub fn why(&self) -> (r: &str)
        ensures
            r@ == (match self@ {
                ChangeErrorView::Refused(s) => s,
                ChangeErrorView::Stalled(s) => s,
                ChangeErrorView::Redirect(s) => s,
            }),
    {
        match self {
            ChangeError::Refused(why) => why.as_str(),
            ChangeError::Stalled(why) => why.as_str(),
            ChangeError::Redirect(why) => why.as_str(),
        }
    }
}

/// `None` for `Ok`, the error's contents otherwise.
pub open spec fn change_fault(r: Result<(), ChangeError>) -> Option<ChangeErrorView> {
    match r {
        Ok(_) => None,
        Err(e) => Some(e@),
    }
}

pub open spec fn leadership_moved() -> ChangeErrorView {
    ChangeErrorView::Refused("leadership changed; send the change to the current leader"@)
}

pub fn require_leader(is_leader: bool, current_term: u64, term: u64, in_quorum: bool) -> (r: Result<(), ChangeError>)
    ensures
        change_fault(r) == (if !is_leader || current_term != term || !in_quorum { Some(leadership_moved()) } else { None }),
{
    if !is_leader || current_term != term || !in_quorum {
        return Err(ChangeError::Refused("leadership changed; send the change to the current leader".to_owned()));
    }
    Ok(())
}

/// A configuration that may be absent, by its contents.
pub open spec fn opt_config(c: Option<Configuration>) -> Option<ConfigurationView> {
    match c {
        Some(c) => Some(c@),
        None => None,
    }
}

/// The newest configuration entry when it has not committed yet, which is what makes a second change
/// unsafe to start: the quorum deciding it is not yet the quorum a third one would name.
pub fn pending_change(latest: Option<Configuration>, committed: &Option<Configuration>) -> (r: Option<Configuration>)
    ensures
        opt_config(r) == (if opt_config(latest) == opt_config(*committed) { None } else { opt_config(latest) }),
{
    match latest {
        None => None,
        Some(l) => {
            let same = match committed {
                Some(c) => same_configuration(&l, c),
                None => false,
            };
            if same { None } else { Some(l) }
        },
    }
}

/// Whether `next` is the change already in flight.
pub open spec fn is_resumption(current: ConfigurationView, next: Seq<Seq<char>>) -> bool {
    &&& current.outgoing is Some
    &&& current.voters.len() == next.len()
    &&& forall|i: int| 0 <= i < next.len() ==> names(current.voters, node(#[trigger] next[i]))
}

fn all_named(urls: &[String], by: &[String]) -> (r: bool)
    ensures
        r == (forall|i: int| 0 <= i < urls@.len() ==> names(texts(by@), node(#[trigger] texts(urls@)[i]))),
{
    let ghost us = texts(urls@);
    let mut i: usize = 0;
    while i < urls.len()
        invariant
            us == texts(urls@),
            i <= urls@.len(),
            forall|j: int| 0 <= j < i ==> names(texts(by@), node(#[trigger] us[j])),
        decreases urls@.len() - i,
    {
        if !list_names(by, urls[i].as_str()) {
            assert(!names(texts(by@), node(us[i as int])));
            return false;
        }
        i += 1;
    }
    true
}

/// Whether `next` is the change already in flight, which a retry is allowed to finish rather than
/// being refused as a second concurrent change.
pub fn resumes(current: &Configuration, next: &[String]) -> (r: bool)
    ensures
        r == is_resumption(current@, texts(next@)),
{
    current.is_joint() && current.voters.len() == next.len() && all_named(next, current.voters.as_slice())
}

/// The refusal of the first of `n` voters whose node an earlier one names.
pub open spec fn repeat_fault(next: Seq<Seq<char>>, n: int) -> Option<ChangeErrorView>
    decreases n,
{
    if n <= 0 {
        None
    } else if repeat_fault(next, n - 1) is Some {
        repeat_fault(next, n - 1)
    } else if names(next.take(n - 1), node(next[n - 1])) {
        Some(ChangeErrorView::Refused(next[n - 1] + " appears more than once; each node counts once toward a majority"@))
    } else {
        None
    }
}

/// The refusal of the first of `n` voters that the group has not caught up.
pub open spec fn stranger_fault(current: ConfigurationView, view: ClusterMetadataView, next: Seq<Seq<char>>, n: int) -> Option<ChangeErrorView>
    decreases n,
{
    if n <= 0 {
        None
    } else if stranger_fault(current, view, next, n - 1) is Some {
        stranger_fault(current, view, next, n - 1)
    } else if current.has_member(next[n - 1]) {
        None
    } else {
        match member_at(view.members, node(next[n - 1])) {
            Some(m) => if m.role == "shard"@ { None } else { Some(ChangeErrorView::Refused(next[n - 1] + " is not a shard node"@)) },
            None => Some(
                ChangeErrorView::Refused(next[n - 1] + " is not a member; admit it as a learner first so it can catch up"@),
            ),
        }
    }
}

/// Why a change is refused, if it is: the first of these that holds.
pub open spec fn change_refusal(
    current: ConfigurationView,
    pending: bool,
    view: ClusterMetadataView,
    next: Seq<Seq<char>>,
) -> Option<ChangeErrorView> {
    if next.len() == 0 {
        Some(ChangeErrorView::Refused("a configuration needs at least one voter"@))
    } else if repeat_fault(next, next.len() as int) is Some {
        repeat_fault(next, next.len() as int)
    } else if current.outgoing is Some && !is_resumption(current, next) {
        Some(
            ChangeErrorView::Refused(
                "a change to "@ + debug_list(current.voters) + " is already in flight; finish or retry that one first"@,
            ),
        )
    } else if pending {
        Some(ChangeErrorView::Refused("the previous configuration entry has not committed yet; retry"@))
    } else {
        stranger_fault(current, view, next, next.len() as int)
    }
}

proof fn lemma_repeat_stays(next: Seq<Seq<char>>, i: int, n: int)
    requires
        0 <= i <= n,
        repeat_fault(next, i) is Some,
    ensures
        repeat_fault(next, n) == repeat_fault(next, i),
    decreases n - i,
{
    if i < n {
        lemma_repeat_stays(next, i, n - 1);
    }
}

proof fn lemma_stranger_stays(current: ConfigurationView, view: ClusterMetadataView, next: Seq<Seq<char>>, i: int, n: int)
    requires
        0 <= i <= n,
        stranger_fault(current, view, next, i) is Some,
    ensures
        stranger_fault(current, view, next, n) == stranger_fault(current, view, next, i),
    decreases n - i,
{
    if i < n {
        lemma_stranger_stays(current, view, next, i, n - 1);
    }
}

fn check_repeats(next: &[String]) -> (r: Result<(), ChangeError>)
    ensures
        change_fault(r) == repeat_fault(texts(next@), next@.len() as int),
{
    let ghost all = texts(next@);
    let mut seen: Vec<String> = Vec::new();
    let mut i: usize = 0;
    assert(texts(seen@) =~= all.take(0));
    while i < next.len()
        invariant
            all == texts(next@),
            i <= next@.len(),
            texts(seen@) == all.take(i as int),
            repeat_fault(all, i as int) is None,
        decreases next@.len() - i,
    {
        let voter = next[i].as_str();
        assert(all[i as int] == voter@);
        if list_names(seen.as_slice(), voter) {
            proof {
                lemma_repeat_stays(all, i + 1, all.len() as int);
            }
            return Err(ChangeError::Refused(cat2(voter, " appears more than once; each node counts once toward a majority")));
        }
        proof {
            lemma_take_grows(all, i as int);
        }
        let ghost before = texts(seen@);
        seen.push(voter.to_owned());
        assert(texts(seen@) =~= before.push(voter@));
        i += 1;
    }
    Ok(())
}

fn check_strangers(current: &Configuration, view: &ClusterMetadata, next: &[String]) -> (r: Result<(), ChangeError>)
    ensures
        change_fault(r) == stranger_fault(current@, view@, texts(next@), next@.len() as int),
{
    let ghost all = texts(next@);
    let mut i: usize = 0;
    while i < next.len()
        invariant
            all == texts(next@),
            i <= next@.len(),
            stranger_fault(current@, view@, all, i as int) is None,
        decreases next@.len() - i,
    {
        let voter = next[i].as_str();
        assert(all[i as int] == voter@);
        if !current.contains(voter) {
            match view.member(voter) {
                Some(m) => if !same_text(m.role.as_str(), "shard") {
                    proof {
                        lemma_stranger_stays(current@, view@, all, i + 1, all.len() as int);
                    }
                    return Err(ChangeError::Refused(cat2(voter, " is not a shard node")));
                },
                None => {
                    proof {
                        lemma_stranger_stays(current@, view@, all, i + 1, all.len() as int);
                    }
                    return Err(
                        ChangeError::Refused(cat2(voter, " is not a member; admit it as a learner first so it can catch up")),
                    );
                },
            }
        }
        i += 1;
    }
    Ok(())
}

/// Whether a change may start. A voter named twice is refused rather than dropped, so the caller
/// learns that the set it asked for is not the set it named. A node nobody has been shipping frames
/// to holds nothing, so admitting it to the quorum would narrow every majority to the nodes that do
/// hold entries until it catches up.
pub fn validate(current: &Configuration, pending: bool, view: &ClusterMetadata, next: &[String]) -> (r: Result<(), ChangeError>)
    ensures
        change_fault(r) == change_refusal(current@, pending, view@, texts(next@)),
{
    assert(texts(next@).len() == next@.len());
    if next.len() == 0 {
        return Err(ChangeError::Refused("a configuration needs at least one voter".to_owned()));
    }
    match check_repeats(next) {
        Err(e) => {
            return Err(e);
        },
        Ok(()) => {},
    }
    if current.is_joint() && !resumes(current, next) {
        return Err(
            ChangeError::Refused(
                cat3(
                    "a change to ",
                    debug_texts(&current.voters).as_str(),
                    " is already in flight; finish or retry that one first",
                ),
            ),
        );
    }
    if pending {
        return Err(ChangeError::Refused("the previous configuration entry has not committed yet; retry".to_owned()));
    }
    check_strangers(current, view, next)
}

// ---- The two entries ----

/// What a change consists of.
pub enum ChangePlan {
    /// It removes this node: hand leadership over first.
    HandOver,
    /// It names the voters in force.
    Unchanged,
    /// The joint entry is there already: append the target.
    Finish { target: Configuration },
    /// Append the joint entry, and the target once it has committed.
    Enter { joint: Configuration, target: Configuration },
}

pub ghost enum ChangePlanView {
    HandOver,
    Unchanged,
    Finish { target: ConfigurationView },
    Enter { joint: ConfigurationView, target: ConfigurationView },
}

impl View for ChangePlan {
    type V = ChangePlanView;

    open spec fn view(&self) -> ChangePlanView {
        match *self {
            ChangePlan::HandOver => ChangePlanView::HandOver,
            ChangePlan::Unchanged => ChangePlanView::Unchanged,
            ChangePlan::Finish { target } => ChangePlanView::Finish { target: target@ },
            ChangePlan::Enter { joint, target } => ChangePlanView::Enter { joint: joint@, target: target@ },
        }
    }
}

/// Whether a simple configuration already has these voters.
pub open spec fn in_force(current: ConfigurationView, voters: Seq<Seq<char>>) -> bool {
    &&& current.outgoing is None
    &&& voters.len() == current.voters.len()
    &&& forall|i: int| 0 <= i < voters.len() ==> current.has_member(#[trigger] voters[i])
}

/// What the change to `next` consists of.
pub open spec fn planned_change(current: ConfigurationView, next: Seq<Seq<char>>, own: Seq<char>) -> ChangePlanView {
    let target = ConfigurationView { voters: canon(next), outgoing: None };
    if !names(next, node(own)) {
        ChangePlanView::HandOver
    } else if in_force(current, target.voters) {
        ChangePlanView::Unchanged
    } else if is_resumption(current, target.voters) {
        ChangePlanView::Finish { target }
    } else {
        ChangePlanView::Enter {
            joint: ConfigurationView { voters: canon(canon(next)), outgoing: Some(canon(current.voters)) },
            target,
        }
    }
}

fn all_members(current: &Configuration, urls: &[String]) -> (r: bool)
    ensures
        r == (forall|i: int| 0 <= i < urls@.len() ==> current@.has_member(#[trigger] texts(urls@)[i])),
{
    let ghost us = texts(urls@);
    let mut i: usize = 0;
    while i < urls.len()
        invariant
            us == texts(urls@),
            i <= urls@.len(),
            forall|j: int| 0 <= j < i ==> current@.has_member(#[trigger] us[j]),
        decreases urls@.len() - i,
    {
        if !current.contains(urls[i].as_str()) {
            assert(!current@.has_member(us[i as int]));
            return false;
        }
        i += 1;
    }
    true
}

fn plan_change(current: &Configuration, next: Vec<String>, own: &str) -> (r: ChangePlan)
    ensures
        r@ == planned_change(current@, texts(next@), own@),
{
    if !list_names(next.as_slice(), own) {
        return ChangePlan::HandOver;
    }
    let target = Configuration::simple(next);
    assert(target@.voters.len() == target.voters@.len());
    if !current.is_joint() && target.voters.len() == current.voters.len() && all_members(current, target.voters.as_slice()) {
        return ChangePlan::Unchanged;
    }
    if resumes(current, target.voters.as_slice()) {
        return ChangePlan::Finish { target };
    }
    let joint = Configuration::joint(copy_list(&current.voters), copy_list(&target.voters));
    ChangePlan::Enter { joint, target }
}

/// Why a change is not made by a node, if it is not: the node no longer leads the term, or the change
/// is one to refuse.
pub open spec fn change_denied(
    standing: Standing,
    term: u64,
    current: ConfigurationView,
    pending: bool,
    view: ClusterMetadataView,
    next: Seq<Seq<char>>,
) -> Option<ChangeErrorView> {
    if !standing.holds(term) { Some(leadership_moved()) } else { change_refusal(current, pending, view, next) }
}

/// What the change to `next` consists of, where this node leads the term and the change is not to be
/// refused. A leader that the change removes would by the end have no standing to replicate it, so
/// leadership moves first and the change follows it.
pub fn change_membership(
    standing: Standing,
    term: u64,
    current: &Configuration,
    pending: bool,
    view: &ClusterMetadata,
    next: Vec<String>,
    own: &str,
) -> (r: Result<ChangePlan, ChangeError>)
    ensures
        match r {
            Ok(plan) => change_denied(standing, term, current@, pending, view@, texts(next@)) is None && plan@ == planned_change(
                current@,
                texts(next@),
                own@,
            ),
            Err(e) => change_denied(standing, term, current@, pending, view@, texts(next@)) == Some(e@),
        },
{
    match require_leader(standing.is_leader, standing.current_term, term, standing.in_quorum) {
        Err(e) => {
            return Err(e);
        },
        Ok(()) => {},
    }
    match validate(current, pending, view, next.as_slice()) {
        Err(e) => {
            return Err(e);
        },
        Ok(()) => {},
    }
    Ok(plan_change(current, next, own))
}

/// What a change is waiting for.
pub enum ChangePhase {
    /// The joint entry to commit, after which the target is owed.
    Joint { target: Configuration },
    /// The target to commit.
    Target { target: Configuration },
    Over,
}

pub ghost enum ChangePhaseView {
    Joint { target: ConfigurationView },
    Target { target: ConfigurationView },
    Over,
}

impl View for ChangePhase {
    type V = ChangePhaseView;

    open spec fn view(&self) -> ChangePhaseView {
        match *self {
            ChangePhase::Joint { target } => ChangePhaseView::Joint { target: target@ },
            ChangePhase::Target { target } => ChangePhaseView::Target { target: target@ },
            ChangePhase::Over => ChangePhaseView::Over,
        }
    }
}

/// What to do next for a change.
pub enum ChangeAction {
    /// Hand leadership to a voter that the change keeps.
    HandOver,
    /// Append this entry and wait for it to commit.
    Append(Configuration),
    /// Go on with the append that is under way, as it says.
    Continue,
    Done(Configuration),
    Fail(ChangeError),
}

pub ghost enum ChangeActionView {
    HandOver,
    Append(ConfigurationView),
    Continue,
    Done(ConfigurationView),
    Fail(ChangeErrorView),
}

impl View for ChangeAction {
    type V = ChangeActionView;

    open spec fn view(&self) -> ChangeActionView {
        match *self {
            ChangeAction::HandOver => ChangeActionView::HandOver,
            ChangeAction::Append(c) => ChangeActionView::Append(c@),
            ChangeAction::Continue => ChangeActionView::Continue,
            ChangeAction::Done(c) => ChangeActionView::Done(c@),
            ChangeAction::Fail(e) => ChangeActionView::Fail(e@),
        }
    }
}

/// How a change begins.
pub open spec fn change_begun(plan: ChangePlanView, current: ConfigurationView) -> (ChangePhaseView, ChangeActionView) {
    match plan {
        ChangePlanView::HandOver => (ChangePhaseView::Over, ChangeActionView::HandOver),
        ChangePlanView::Unchanged => (ChangePhaseView::Over, ChangeActionView::Done(current)),
        ChangePlanView::Finish { target } => (ChangePhaseView::Target { target }, ChangeActionView::Append(target)),
        ChangePlanView::Enter { joint, target } => (ChangePhaseView::Joint { target }, ChangeActionView::Append(joint)),
    }
}

/// Begins a change.
pub fn begin_change(plan: ChangePlan, current: &Configuration) -> (r: (ChangePhase, ChangeAction))
    ensures
        (r.0@, r.1@) == change_begun(plan@, current@),
{
    match plan {
        ChangePlan::HandOver => (ChangePhase::Over, ChangeAction::HandOver),
        ChangePlan::Unchanged => (ChangePhase::Over, ChangeAction::Done(current.clone())),
        ChangePlan::Finish { target } => {
            let entry = target.clone();
            (ChangePhase::Target { target }, ChangeAction::Append(entry))
        },
        ChangePlan::Enter { joint, target } => (ChangePhase::Joint { target }, ChangeAction::Append(joint)),
    }
}

/// What follows from what the append of an entry came to, or goes on with: the target is appended
/// once the joint entry has committed, and a failure is the change's own.
pub open spec fn change_next(phase: ChangePhaseView, append: AppendActionView) -> (ChangePhaseView, ChangeActionView) {
    match append {
        AppendActionView::Fail(e) => (ChangePhaseView::Over, ChangeActionView::Fail(e)),
        AppendActionView::Done(_) => match phase {
            ChangePhaseView::Joint { target } => (ChangePhaseView::Target { target }, ChangeActionView::Append(target)),
            ChangePhaseView::Target { target } => (ChangePhaseView::Over, ChangeActionView::Done(target)),
            ChangePhaseView::Over => (
                ChangePhaseView::Over,
                ChangeActionView::Fail(ChangeErrorView::Stalled("the change was interrupted"@)),
            ),
        },
        _ => (phase, ChangeActionView::Continue),
    }
}

/// One step of a change, after a step of the append that is under way for it.
pub fn change_step(phase: ChangePhase, append: AppendAction) -> (r: (ChangePhase, ChangeAction))
    ensures
        (r.0@, r.1@) == change_next(phase@, append@),
{
    match append {
        AppendAction::Fail(e) => (ChangePhase::Over, ChangeAction::Fail(e)),
        AppendAction::Done(_) => match phase {
            ChangePhase::Joint { target } => {
                let entry = target.clone();
                (ChangePhase::Target { target }, ChangeAction::Append(entry))
            },
            ChangePhase::Target { target } => (ChangePhase::Over, ChangeAction::Done(target)),
            ChangePhase::Over => (
                ChangePhase::Over,
                ChangeAction::Fail(ChangeError::Stalled("the change was interrupted".to_owned())),
            ),
        },
        _ => (phase, ChangeAction::Continue),
    }
}

/// The members of `config` that `previous` does not have. They are shipped everything: the entry is
/// in force the moment it lands, and a cursor seeded at our tail would leave a node that holds nothing
/// looking current.
pub open spec fn joining(config: Seq<Seq<char>>, previous: ConfigurationView) -> Seq<Seq<char>>
    decreases config.len(),
{
    if config.len() == 0 {
        Seq::empty()
    } else {
        let before = joining(config.drop_last(), previous);
        if previous.has_member(config.last()) { before } else { before.push(config.last()) }
    }
}

pub fn joining_members(config: &Configuration, previous: &Configuration) -> (r: Vec<String>)
    ensures
        texts(r@) == joining(canon(config@.all()), previous@),
{
    let members = config.members();
    let ghost all = texts(members@);
    let mut out: Vec<String> = Vec::new();
    let mut i: usize = 0;
    assert(all.take(0) =~= Seq::empty());
    assert(texts(out@) =~= joining(all.take(0), previous@));
    while i < members.len()
        invariant
            all == texts(members@),
            i <= members@.len(),
            texts(out@) == joining(all.take(i as int), previous@),
        decreases members@.len() - i,
    {
        proof {
            lemma_take_grows(all, i as int);
        }
        let ghost before = texts(out@);
        if !previous.contains(members[i].as_str()) {
            out.push(members[i].clone());
            assert(texts(out@) =~= before.push(members@[i as int]@));
        }
        i += 1;
    }
    proof {
        lemma_take_all(all);
    }
    out
}

// ---- Appending one entry ----

/// What the append of a configuration entry is waiting for.
#[derive(Clone, Copy, Debug, PartialEq, Eq, Structural)]
pub enum AppendPhase {
    Start,
    /// The entry to land in the log.
    Appending,
    /// The entry to be durable here and shipped.
    Shipping { lsn: u64 },
    /// The entry to commit.
    Committing { lsn: u64, deadline: u64 },
    /// The committed entry to be applied.
    Applying { lsn: u64 },
    Over,
}

/// Whether this node still leads as it did.
#[derive(Clone, Copy, Debug, PartialEq, Eq, Structural)]
pub struct Standing {
    pub is_leader: bool,
    pub current_term: u64,
    pub in_quorum: bool,
}

impl Standing {
    pub open spec fn holds(self, term: u64) -> bool {
        self.is_leader && self.current_term == term && self.in_quorum
    }
}

/// What looking for the configuration log brought.
#[derive(Debug, PartialEq, Eq)]
pub enum LogFound {
    /// This node keeps no logs.
    NoStorage,
    /// It could not be opened, for this reason.
    Unusable(String),
    Open,
}

/// What happened outside.
pub enum AppendEvent {
    /// The log was looked for.
    Opened { standing: Standing, log: LogFound },
    /// The entry landed at an LSN, or why it did not.
    Appended { lsn: Result<u64, String> },
    /// The entry was made durable here, or why it was not.
    Shipped { durable: Result<(), String>, now: u64 },
    Looked { committed_lsn: u64, is_leader: bool, current_term: u64, now: u64 },
    Applied { outcome: Result<(), String>, standing: Standing },
}

/// What to do next.
pub enum AppendAction {
    Append,
    /// Put the entry in force, track the members that join, ship it and make it durable.
    Ship,
    /// Look how far the commit index is, after a little while where it is not there yet.
    LookCommitted,
    Apply,
    Done(u64),
    Fail(ChangeError),
}

pub ghost enum AppendActionView {
    Append,
    Ship,
    LookCommitted,
    Apply,
    Done(u64),
    Fail(ChangeErrorView),
}

impl View for AppendAction {
    type V = AppendActionView;

    open spec fn view(&self) -> AppendActionView {
        match *self {
            AppendAction::Append => AppendActionView::Append,
            AppendAction::Ship => AppendActionView::Ship,
            AppendAction::LookCommitted => AppendActionView::LookCommitted,
            AppendAction::Apply => AppendActionView::Apply,
            AppendAction::Done(lsn) => AppendActionView::Done(lsn),
            AppendAction::Fail(e) => AppendActionView::Fail(e@),
        }
    }
}

pub open spec fn append_failed(e: ChangeErrorView) -> (AppendPhase, AppendActionView) {
    (AppendPhase::Over, AppendActionView::Fail(e))
}

/// The state and the action after an event. Before the entry has landed a failure is a refusal;
/// after, the change is neither applied nor undone. An event that is not waited for ends it as one
/// that stalled.
pub open spec fn append_next(phase: AppendPhase, term: u64, event: AppendEvent) -> (AppendPhase, AppendActionView) {
    match (phase, event) {
        (AppendPhase::Start, AppendEvent::Opened { standing, log }) => if !standing.holds(term) {
            append_failed(leadership_moved())
        } else {
            match log {
                LogFound::Open => (AppendPhase::Appending, AppendActionView::Append),
                LogFound::Unusable(e) => append_failed(ChangeErrorView::Refused(e@)),
                LogFound::NoStorage => append_failed(ChangeErrorView::Refused("this node has no storage"@)),
            }
        },
        (AppendPhase::Appending, AppendEvent::Appended { lsn }) => match lsn {
            Ok(lsn) => (AppendPhase::Shipping { lsn }, AppendActionView::Ship),
            Err(e) => append_failed(ChangeErrorView::Refused(e@)),
        },
        (AppendPhase::Shipping { lsn }, AppendEvent::Shipped { durable, now }) => match durable {
            Ok(_) => (
                AppendPhase::Committing {
                    lsn,
                    deadline: if now + CONFIG_COMMIT_TIMEOUT <= u64::MAX { (now + CONFIG_COMMIT_TIMEOUT) as u64 } else { u64::MAX },
                },
                AppendActionView::LookCommitted,
            ),
            Err(e) => append_failed(ChangeErrorView::Stalled(e@)),
        },
        (AppendPhase::Committing { lsn, deadline }, AppendEvent::Looked { committed_lsn, is_leader, current_term, now }) => if committed_lsn
            >= lsn {
            (AppendPhase::Applying { lsn }, AppendActionView::Apply)
        } else if now >= deadline || !is_leader || current_term != term {
            append_failed(
                ChangeErrorView::Stalled(
                    "configuration entry "@ + decimal_of(lsn as nat) + " is durable but did not reach a quorum"@,
                ),
            )
        } else {
            (phase, AppendActionView::LookCommitted)
        },
        (AppendPhase::Applying { lsn }, AppendEvent::Applied { outcome, standing }) => match outcome {
            Err(e) => append_failed(ChangeErrorView::Stalled(e@)),
            Ok(_) => if standing.holds(term) {
                (AppendPhase::Over, AppendActionView::Done(lsn))
            } else {
                append_failed(ChangeErrorView::Stalled("leadership changed; send the change to the current leader"@))
            },
        },
        _ => append_failed(ChangeErrorView::Stalled("the append was interrupted"@)),
    }
}

/// One step of appending a configuration entry and waiting for it to commit. The entry is in force
/// from the append on, not from the commit.
pub fn append_and_commit(phase: AppendPhase, term: u64, event: AppendEvent) -> (r: (AppendPhase, AppendAction))
    ensures
        (r.0, r.1@) == append_next(phase, term, event),
{
    match (phase, event) {
        (AppendPhase::Start, AppendEvent::Opened { standing, log }) => {
            match require_leader(standing.is_leader, standing.current_term, term, standing.in_quorum) {
                Err(e) => {
                    return (AppendPhase::Over, AppendAction::Fail(e));
                },
                Ok(()) => {},
            }
            match log {
                LogFound::Open => (AppendPhase::Appending, AppendAction::Append),
                LogFound::Unusable(e) => (AppendPhase::Over, AppendAction::Fail(ChangeError::Refused(e))),
                LogFound::NoStorage => (
                    AppendPhase::Over,
                    AppendAction::Fail(ChangeError::Refused("this node has no storage".to_owned())),
                ),
            }
        },
        (AppendPhase::Appending, AppendEvent::Appended { lsn }) => match lsn {
            Ok(lsn) => (AppendPhase::Shipping { lsn }, AppendAction::Ship),
            Err(e) => (AppendPhase::Over, AppendAction::Fail(ChangeError::Refused(e))),
        },
        (AppendPhase::Shipping { lsn }, AppendEvent::Shipped { durable, now }) => match durable {
            Ok(_) => (
                AppendPhase::Committing { lsn, deadline: now.saturating_add(CONFIG_COMMIT_TIMEOUT) },
                AppendAction::LookCommitted,
            ),
            Err(e) => (AppendPhase::Over, AppendAction::Fail(ChangeError::Stalled(e))),
        },
        (AppendPhase::Committing { lsn, deadline }, AppendEvent::Looked { committed_lsn, is_leader, current_term, now }) => {
            if committed_lsn >= lsn {
                return (AppendPhase::Applying { lsn }, AppendAction::Apply);
            }
            if now >= deadline || !is_leader || current_term != term {
                let why = cat3("configuration entry ", decimal(lsn).as_str(), " is durable but did not reach a quorum");
                return (AppendPhase::Over, AppendAction::Fail(ChangeError::Stalled(why)));
            }
            (phase, AppendAction::LookCommitted)
        },
        (AppendPhase::Applying { lsn }, AppendEvent::Applied { outcome, standing }) => match outcome {
            Err(e) => (AppendPhase::Over, AppendAction::Fail(ChangeError::Stalled(e))),
            Ok(_) => if standing.is_leader && standing.current_term == term && standing.in_quorum {
                (AppendPhase::Over, AppendAction::Done(lsn))
            } else {
                (
                    AppendPhase::Over,
                    AppendAction::Fail(
                        ChangeError::Stalled("leadership changed; send the change to the current leader".to_owned()),
                    ),
                )
            },
        },
        _ => (AppendPhase::Over, AppendAction::Fail(ChangeError::Stalled("the append was interrupted".to_owned()))),
    }
}

// ---- Removing the leader ----

/// What a handover for the sake of a change came to.
pub fn hand_over_first(outcome: Result<String, super::transfer::TransferError>) -> (r: ChangeError)
    ensures
        r@ == (match outcome {
            Ok(leader) => ChangeErrorView::Redirect(leader@),
            Err(e) => ChangeErrorView::Refused(
                "this change removes the leader and leadership could not be handed over: "@ + (match e@ {
                    super::transfer::TransferErrorView::Refused(s) => s,
                    super::transfer::TransferErrorView::Failed(s) => s,
                }),
            ),
        }),
{
    match outcome {
        Ok(leader) => ChangeError::Redirect(leader),
        Err(e) => ChangeError::Refused(
            cat2("this change removes the leader and leadership could not be handed over: ", e.why()),
        ),
    }
}

/// The voter to hand office to for the sake of a change, or the refusal where the change keeps none: the
/// readiest of the voters in force that the change keeps and that could take over.
pub fn successor_for(
    quorum: &Configuration,
    own: &str,
    next: &[String],
    tails: Option<&Vec<(String, u64)>>,
    progress: &Progress,
) -> (r: Result<String, ChangeError>)
    ensures
        ({
            let able = eligible(quorum@, own@, texts(next@), canon(quorum@.all()));
            match best_of(progress@, able, opt_tails(tails)) {
                Some(t) => r is Ok && r->Ok_0@ == t,
                None => r is Err && r->Err_0@ == ChangeErrorView::Refused(
                    "this change removes the leader and names no other current voter to hand office to; add one as a voter first"@,
                ),
            }
        }),
{
    let able = eligible_targets(quorum, own, next);
    match best_target(able.as_slice(), tails, progress) {
        Some(t) => Ok(t),
        None => Err(
            ChangeError::Refused(
                "this change removes the leader and names no other current voter to hand office to; add one as a voter first".to_owned(),
            ),
        ),
    }
}

// ---- Resuming ----

/// A leader that inherits a committed joint configuration finishes the change. Gated on the joint
/// entry being *committed* and still in force: appending the target above an uncommitted joint entry
/// would let a majority of the incoming half alone commit both. Returns the voters to move to.
pub fn resume_change(
    is_leader: bool,
    current_term: u64,
    term: u64,
    committed: &Option<Configuration>,
    quorum: &Configuration,
    pending: bool,
) -> (r: Option<Vec<String>>)
    ensures
        match r {
            Some(v) => is_leader && current_term == term && *committed is Some && committed->0@.outgoing is Some
                && quorum@ == committed->0@ && !pending && texts(v@) == canon(committed->0@.voters),
            None => !(is_leader && current_term == term && *committed is Some && committed->0@.outgoing is Some
                && quorum@ == committed->0@ && !pending),
        },
{
    if !is_leader || current_term != term {
        return None;
    }
    match committed {
        Some(joint) => {
            if !joint.is_joint() || !same_configuration(quorum, joint) || pending {
                return None;
            }
            Some(joint.target().voters)
        },
        None => None,
    }
}

// ---- Laws ----

/// From one voting set to the next there is no step without an overlap: a decision under the joint
/// entry shares a voter with every decision of the old set and with every decision of the new one.
pub proof fn law_no_two_sets_decide_apart(
    old_voters: Seq<Seq<char>>,
    new_voters: Seq<Seq<char>>,
    joint_granted: Set<Seq<char>>,
    other: Set<Seq<char>>,
) -> (n: Seq<char>)
    requires
        nodes(old_voters).len() > 0,
        nodes(new_voters).len() > 0,
        (ConfigurationView { voters: new_voters, outgoing: Some(old_voters) }).decided(joint_granted),
        (ConfigurationView { voters: old_voters, outgoing: None }).decided(other)
            || (ConfigurationView { voters: new_voters, outgoing: None }).decided(other),
    ensures
        joint_granted.contains(n) && other.contains(n),
{
    law_canon_names_each_node_once(old_voters);
    law_canon_names_each_node_once(new_voters);
    if super::config::half_decided(nodes(old_voters), other) {
        super::config::law_majorities_of_a_half_meet(nodes(old_voters), joint_granted, other)
    } else {
        super::config::law_majorities_of_a_half_meet(nodes(new_voters), joint_granted, other)
    }
}

/// A change that starts goes through the joint entry of exactly the old and the new set.
pub proof fn law_a_change_passes_through_both_sets(current: ConfigurationView, next: Seq<Seq<char>>, own: Seq<char>, granted: Set<Seq<char>>)
    requires
        planned_change(current, next, own) is Enter,
        current.outgoing is None,
    ensures
        ({
            let p = planned_change(current, next, own);
            &&& p->joint.decided(granted) <==> current.decided(granted) && p->Enter_target.decided(granted)
            &&& p->Enter_target.outgoing is None
            &&& nodes(p->Enter_target.voters) == nodes(next)
        }),
{
    law_canon_names_each_node_once(next);
    law_canon_names_each_node_once(canon(next));
    law_canon_names_each_node_once(current.voters);
}

/// A retry of the change in flight is not a second change: it finishes what is there.
pub proof fn law_a_retry_finishes_the_change(current: ConfigurationView, next: Seq<Seq<char>>, own: Seq<char>)
    requires
        current.outgoing is Some,
        one_per_node(next),
        is_resumption(current, next),
        names(next, node(own)),
    ensures
        planned_change(current, next, own) == (ChangePlanView::Finish { target: ConfigurationView { voters: next, outgoing: None } }),
{
    super::config::law_canon_is_idempotent(next);
}

/// An entry that was not appended leaves nothing behind: every refusal comes before the append.
pub proof fn law_a_refusal_comes_before_the_append(phase: AppendPhase, term: u64, event: AppendEvent)
    ensures
        append_next(phase, term, event).1 is Fail && append_next(phase, term, event).1->Fail_0 is Refused
            ==> phase is Start || phase is Appending,
        append_next(phase, term, event).1 is Done ==> phase is Applying && append_next(phase, term, event).1->Done_0 == phase->Applying_lsn,
{
}

/// An append after the first `n` of some events.
pub open spec fn append_after(term: u64, events: Seq<AppendEvent>, n: int) -> AppendPhase
    decreases n,
{
    if n <= 0 { AppendPhase::Start } else { append_next(append_after(term, events, n - 1), term, events[n - 1]).0 }
}

/// Whether an event is the landing of the entry at an LSN.
pub open spec fn landed(event: AppendEvent, lsn: u64) -> bool {
    event is Appended && event->lsn == Ok::<u64, String>(lsn)
}

/// Whether an event shows the commit index at or past an LSN.
pub open spec fn shows_committed(event: AppendEvent, lsn: u64) -> bool {
    event is Looked && event->committed_lsn >= lsn
}

proof fn lemma_append_phases(term: u64, events: Seq<AppendEvent>, n: int)
    requires
        0 <= n <= events.len(),
    ensures
        match append_after(term, events, n) {
            AppendPhase::Start => n == 0,
            AppendPhase::Appending => n == 1 && events[0] is Opened && events[0]->Opened_standing.holds(term),
            AppendPhase::Shipping { lsn } => n == 2 && events[0] is Opened && events[0]->Opened_standing.holds(term) && landed(events[1], lsn),
            AppendPhase::Committing { lsn, deadline } => n >= 3 && events[0] is Opened && events[0]->Opened_standing.holds(term)
                && landed(events[1], lsn) && events[2] is Shipped && events[2]->durable is Ok,
            AppendPhase::Applying { lsn } => n >= 4 && events[0] is Opened && events[0]->Opened_standing.holds(term) && landed(
                events[1],
                lsn,
            ) && events[2] is Shipped && events[2]->durable is Ok && shows_committed(events[n - 1], lsn),
            AppendPhase::Over => true,
        },
    decreases n,
{
    if n > 0 {
        lemma_append_phases(term, events, n - 1);
    }
}

/// Whatever happens on the way, a configuration entry is reported as done only once it landed under a
/// leader of the term, was made durable, was seen committed and was applied, by a node that still
/// leads the term.
pub proof fn law_a_change_is_done_only_when_committed(term: u64, events: Seq<AppendEvent>, n: int, lsn: u64)
    requires
        0 < n <= events.len(),
        append_next(append_after(term, events, n - 1), term, events[n - 1]).1 == AppendActionView::Done(lsn),
    ensures
        n >= 5,
        events[0] is Opened && events[0]->Opened_standing.holds(term),
        landed(events[1], lsn),
        events[2] is Shipped && events[2]->durable is Ok,
        shows_committed(events[n - 2], lsn),
        events[n - 1] is Applied && events[n - 1]->outcome is Ok && events[n - 1]->Applied_standing.holds(term),
{
    lemma_append_phases(term, events, n - 1);
}

/// The target is appended above a joint entry only once that entry was seen committed, by a node that
/// leads the term still. Whatever else the append of the joint entry comes to, nothing more is
/// appended, and an entry that stalled leaves the change stalled.
pub proof fn law_the_target_waits_for_the_joint_entry(term: u64, target: ConfigurationView, events: Seq<AppendEvent>, n: int)
    requires
        0 < n <= events.len(),
    ensures
        ({
            let phase = ChangePhaseView::Joint { target };
            let append = append_next(append_after(term, events, n - 1), term, events[n - 1]).1;
            let next = change_next(phase, append);
            &&& next.1 is Append <==> append is Done
            &&& next.1 is Append ==> {
                &&& next == (ChangePhaseView::Target { target }, ChangeActionView::Append(target))
                &&& n >= 5 && shows_committed(events[n - 2], append->Done_0) && landed(events[1], append->Done_0)
                &&& events[n - 1]->Applied_standing.holds(term)
            }
            &&& append is Fail ==> next == (ChangePhaseView::Over, ChangeActionView::Fail(append->Fail_0))
            &&& !(next.1 is Done)
        }),
{
    let append = append_next(append_after(term, events, n - 1), term, events[n - 1]).1;
    if append is Done {
        law_a_change_is_done_only_when_committed(term, events, n, append->Done_0);
    }
}

/// A refused change appends nothing: a change that begins was made by a leader of the term, and names
/// at least one voter and no node twice.
pub proof fn law_a_change_that_begins_was_allowed(
    standing: Standing,
    term: u64,
    current: ConfigurationView,
    pending: bool,
    view: ClusterMetadataView,
    next: Seq<Seq<char>>,
)
    requires
        change_denied(standing, term, current, pending, view, next) is None,
    ensures
        standing.holds(term),
        next.len() > 0,
        one_per_node(next),
        !pending,
        current.outgoing is Some ==> is_resumption(current, next),
{
    lemma_no_repeat(next, next.len() as int);
    assert(next.take(next.len() as int) =~= next);
}

proof fn lemma_no_repeat(next: Seq<Seq<char>>, n: int)
    requires
        0 <= n <= next.len(),
        repeat_fault(next, n) is None,
    ensures
        one_per_node(next.take(n)),
    decreases n,
{
    if n > 0 {
        lemma_no_repeat(next, n - 1);
        let before = next.take(n - 1);
        let all = next.take(n);
        assert forall|i: int, j: int| 0 <= i < j < all.len() implies node(#[trigger] all[i]) != node(#[trigger] all[j]) by {
            assert(all[i] == before[i]);
            if j < n - 1 {
                assert(all[j] == before[j]);
            } else if node(all[i]) == node(all[j]) {
                assert(names(before, node(next[n - 1])));
            }
        }
    }
}

/// A set of voters is refused for a repeat exactly where two of them are one node.
pub proof fn law_a_repeat_is_two_of_one_node(next: Seq<Seq<char>>, n: int)
    requires
        0 <= n <= next.len(),
    ensures
        repeat_fault(next, n) is None <==> forall|i: int, j: int| 0 <= i < j < n ==> node(#[trigger] next[i]) != node(#[trigger] next[j]),
    decreases n,
{
    if n > 0 {
        law_a_repeat_is_two_of_one_node(next, n - 1);
        let before = next.take(n - 1);
        if names(before, node(next[n - 1])) {
            let i = choose|i: int| 0 <= i < before.len() && node(#[trigger] before[i]) == node(next[n - 1]);
            assert(next[i] == before[i]);
        } else {
            assert forall|i: int| 0 <= i < n - 1 implies node(#[trigger] next[i]) != node(next[n - 1]) by {
                assert(before[i] == next[i]);
            }
        }
    }
}

/// A set of voters is let through exactly where each votes already or is a shard node that was
/// admitted.
pub proof fn law_a_stranger_has_no_vote(current: ConfigurationView, view: ClusterMetadataView, next: Seq<Seq<char>>, n: int)
    requires
        0 <= n <= next.len(),
    ensures
        stranger_fault(current, view, next, n) is None <==> forall|i: int|
            0 <= i < n ==> current.has_member(#[trigger] next[i]) || (member_at(view.members, node(next[i])) is Some && member_at(
                view.members,
                node(next[i]),
            )->0.role == "shard"@),
    decreases n,
{
    if n > 0 {
        law_a_stranger_has_no_vote(current, view, next, n - 1);
    }
}

/// Whoever joins with a configuration is a voter of it who had no vote before, and every such voter
/// joins.
pub proof fn law_whoever_is_new_joins(config: Seq<Seq<char>>, previous: ConfigurationView, url: Seq<char>)
    ensures
        joining(config, previous).contains(url) <==> config.contains(url) && !names(previous.all(), node(url)),
    decreases config.len(),
{
    lemma_joined_hold::<Seq<char>>();
    if config.len() > 0 {
        law_whoever_is_new_joins(config.drop_last(), previous, url);
        assert(config =~= config.drop_last().push(config.last()));
    }
}

/// A change is let through exactly where it names voters, each node once and none a stranger, nothing
/// is left to commit, and no other change is in flight.
pub proof fn law_when_a_change_is_let_through(current: ConfigurationView, pending: bool, view: ClusterMetadataView, next: Seq<Seq<char>>)
    ensures
        change_refusal(current, pending, view, next) is None <==> {
            &&& next.len() > 0
            &&& one_per_node(next)
            &&& !pending
            &&& current.outgoing is Some ==> is_resumption(current, next)
            &&& forall|i: int|
                0 <= i < next.len() ==> current.has_member(#[trigger] next[i]) || (member_at(view.members, node(next[i])) is Some
                    && member_at(view.members, node(next[i]))->0.role == "shard"@)
        },
{
    law_a_repeat_is_two_of_one_node(next, next.len() as int);
    law_a_stranger_has_no_vote(current, view, next, next.len() as int);
}

/// A change that is planned begins with its first entry: the joint one where the sets differ, the
/// target where the joint one is in force already, and none where nothing is to change.
pub proof fn law_a_change_begins_with_its_first_entry(current: ConfigurationView, next: Seq<Seq<char>>, own: Seq<char>)
    ensures
        ({
            let plan = planned_change(current, next, own);
            let (phase, action) = change_begun(plan, current);
            &&& plan is HandOver <==> !names(next, node(own))
            &&& plan is HandOver ==> action is HandOver
            &&& plan is Unchanged ==> action == ChangeActionView::Done(current)
            &&& plan is Finish ==> action == ChangeActionView::Append(plan->Finish_target)
            &&& plan is Enter ==> action == ChangeActionView::Append(plan->joint) && phase is Joint
            &&& plan is Enter ==> nodes((plan->joint).voters) == nodes(next) && (plan->joint).outgoing is Some && nodes(
                (plan->joint).outgoing->0,
            ) == nodes(current.voters)
            &&& plan is Finish ==> nodes((plan->Finish_target).voters) == nodes(next) && (plan->Finish_target).outgoing is None
        }),
{
    law_canon_names_each_node_once(next);
    law_canon_names_each_node_once(canon(next));
    law_canon_names_each_node_once(current.voters);
}

/// An entry is appended only while the term is led and the log can be written, is shipped once it is
/// there, and fails as refused where nothing was appended.
pub proof fn law_an_entry_is_appended_before_it_is_shipped(phase: AppendPhase, term: u64, event: AppendEvent)
    ensures
        ({
            let (after, action) = append_next(phase, term, event);
            let opened = phase is Start && event is Opened;
            let appended = phase is Appending && event is Appended;
            let shipped = phase is Shipping && event is Shipped;
            &&& opened && !event->Opened_standing.holds(term) ==> action == AppendActionView::Fail(leadership_moved())
            &&& opened && event->Opened_standing.holds(term) && event->log is Open ==> action is Append && after is Appending
            &&& opened && event->Opened_standing.holds(term) && event->log is Unusable ==> action == AppendActionView::Fail(
                ChangeErrorView::Refused(event->log->Unusable_0@),
            )
            &&& opened && event->Opened_standing.holds(term) && event->log is NoStorage ==> action is Fail && action->Fail_0 is Refused
            &&& appended && event->lsn is Ok ==> action is Ship && after == (AppendPhase::Shipping { lsn: event->lsn->Ok_0 })
            &&& appended && event->lsn is Err ==> action == AppendActionView::Fail(ChangeErrorView::Refused(event->lsn->Err_0@))
            &&& shipped && event->durable is Ok ==> action is LookCommitted && after is Committing && after->Committing_lsn
                == phase->Shipping_lsn && (event->Shipped_now + CONFIG_COMMIT_TIMEOUT <= u64::MAX ==> after->deadline == event->Shipped_now
                + CONFIG_COMMIT_TIMEOUT)
            &&& shipped && event->durable is Err ==> action == AppendActionView::Fail(ChangeErrorView::Stalled(event->durable->Err_0@))
        }),
{
}

/// An entry that was shipped is waited for until it commits, as long as its term is led and there is
/// time, and is applied then; what fails from here on may still commit, and is told as stalled.
pub proof fn law_an_entry_is_applied_once_committed(phase: AppendPhase, term: u64, event: AppendEvent)
    ensures
        ({
            let (after, action) = append_next(phase, term, event);
            let looked = phase is Committing && event is Looked;
            let committed = event->committed_lsn >= phase->Committing_lsn;
            let gone = event->Looked_now >= phase->deadline || !event->Looked_is_leader || event->Looked_current_term != term;
            let applied = phase is Applying && event is Applied;
            &&& looked && committed ==> action is Apply && after == (AppendPhase::Applying { lsn: phase->Committing_lsn })
            &&& looked && !committed && gone ==> action is Fail && action->Fail_0 is Stalled
            &&& looked && !committed && !gone ==> action is LookCommitted && after == phase
            &&& applied && event->outcome is Err ==> action == AppendActionView::Fail(ChangeErrorView::Stalled(event->outcome->Err_0@))
            &&& applied && event->outcome is Ok && event->Applied_standing.holds(term) ==> action == AppendActionView::Done(phase->Applying_lsn)
            &&& applied && event->outcome is Ok && !event->Applied_standing.holds(term) ==> action is Fail && action->Fail_0 is Stalled
        }),
{
}

/// A set of voters is in force exactly where nothing is in flight and it has the very nodes that vote.
pub proof fn law_when_a_set_is_in_force(current: ConfigurationView, voters: Seq<Seq<char>>)
    requires
        one_per_node(voters),
        one_per_node(current.voters),
    ensures
        in_force(current, voters) <==> current.outgoing is None && nodes(voters) == nodes(current.voters),
{
    law_canon_names_each_node_once(voters);
    law_canon_names_each_node_once(current.voters);
    law_canon_is_idempotent(voters);
    law_canon_is_idempotent(current.voters);
    let (a, b) = (nodes(voters), nodes(current.voters));
    if current.outgoing is None {
        if in_force(current, voters) {
            assert forall|n: Seq<char>| a.contains(n) implies b.contains(n) by {
                let i = choose|i: int| 0 <= i < voters.len() && node(#[trigger] voters[i]) == n;
                assert(current.has_member(voters[i]));
            }
            assert(a.subset_of(b));
            vstd::set_lib::lemma_subset_equality(a, b);
        }
        if a == b {
            assert forall|i: int| 0 <= i < voters.len() implies current.has_member(#[trigger] voters[i]) by {
                assert(a.contains(node(voters[i])));
                assert(b.contains(node(voters[i])));
            }
        }
    }
}

} // verus!
