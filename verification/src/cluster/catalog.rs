//! The cluster-wide index catalogue: how it travels, and how a shard group catches up with it.
//!
//! The catalogue travels by gossip rather than by publication. It rides the cluster view, but it is
//! merged per collection instead of being replaced with the winning view, because a schema change is
//! not a routing decision. The round carries topology as well, in both directions: it is the only
//! poll any node runs against another group's leader.

use super::indexes::{
    catalogue, entry_fault, has_index, law_a_merge_holds_the_newer_entry, law_a_merge_moves_where_it_takes,
    law_a_merge_never_goes_back, law_newer_is_a_strict_order, merge_catalog, merged, same_spec, sanitize_catalog,
    specs, taken, without_index, CatalogView, CollectionIndexes, IndexCatalog, IndexChange, IndexChangeView,
    IndexSpec, IndexSpecView,
};
use super::metadata::{
    cleaned, groups_view, law_published_views_are_comparable, law_winning_is_a_strict_order, members_of, owners,
    urls_of, ClusterMetadata, ClusterMetadataView, GroupView, Member, ViewId, ViewIdView,
};
use super::router::{effective_of, effective_primary};
use crate::consensus::config::{
    canon, canonical, is_system_collection, law_canon_names_each_node_once, one_per_node, system_name,
};
use crate::endpoint::{law_others_leave_one_node_out, names, node, nodes, others, without_node};
use crate::lists::{lemma_joined_hold, lemma_take_all, lemma_take_grows};
use crate::name_map::NameMap;
use crate::text::{cat2, cat4, copy_list, same_text, texts};
use vstd::prelude::*;

verus! {

/// One round of gossip and one reconciliation pass. Short because it is the convergence bound for a
/// definition reaching a group that does not hold the collection yet, and affordable because a round
/// between nodes already in step is one small request per peer and no writes at all.
pub const CATALOG_SYNC_INTERVAL_SECS: u64 = 3;

// ---- Gossip ----

/// The nodes of the first `n` groups, each group's primary before its replicas.
pub open spec fn group_nodes(g: Seq<GroupView>, n: int) -> Seq<Seq<char>>
    decreases n,
{
    if n <= 0 { Seq::empty() } else { group_nodes(g, n - 1) + seq![g[n - 1].0] + g[n - 1].1 }
}

/// Groups with who is taken for the primary now in the place of the recorded one.
pub open spec fn led_now(g: Seq<GroupView>, overrides: Map<Seq<char>, String>) -> Seq<GroupView> {
    Seq::new(g.len(), |i: int| (effective_of(overrides, g[i].0), g[i].1))
}

/// Every node this one can name: its own group from the members, and the nodes of each shard group
/// from the model in force, with who is taken for its primary now. Each once, and not this node. A
/// router is the only node that knows every group, which is why it gossips too.
pub fn gossip_targets(view: &ClusterMetadata, overrides: &NameMap<String>, own: &str) -> (r: Vec<String>)
    ensures
        ({
            let groups = led_now(owners(view@), overrides@);
            texts(r@) == canon(without_node(urls_of(view@.members) + group_nodes(groups, groups.len() as int), own@))
        }),
{
    let found = view.shard_owners();
    let ghost g = owners(view@);
    let ghost want = led_now(g, overrides@);
    let mut groups: Vec<(String, Vec<String>)> = Vec::new();
    let mut i: usize = 0;
    assert(groups_view(groups@) =~= want.take(0));
    while i < found.len()
        invariant
            g == groups_view(found@),
            want == led_now(g, overrides@),
            i <= found@.len(),
            groups_view(groups@) == want.take(i as int),
        decreases found@.len() - i,
    {
        let ghost before = groups_view(groups@);
        assert(g[i as int] == (found@[i as int].0@, texts(found@[i as int].1@)));
        groups.push((effective_primary(overrides, found[i].0.as_str()), copy_list(&found[i].1)));
        proof {
            assert(groups_view(groups@) =~= before.push(want[i as int]));
            assert(groups_view(groups@) =~= want.take(i + 1));
        }
        i += 1;
    }
    assert(want.take(i as int) =~= want);
    assert(groups_view(groups@).len() == groups@.len());
    nodes_to_ask(own, &view.members, &groups)
}

fn nodes_to_ask(own: &str, members: &Vec<Member>, groups: &Vec<(String, Vec<String>)>) -> (r: Vec<String>)
    ensures
        texts(r@) == canon(
            without_node(urls_of(members_of(members@)) + group_nodes(groups_view(groups@), groups@.len() as int), own@),
        ),
{
    let mut all: Vec<String> = Vec::new();
    let ghost us = urls_of(members_of(members@));
    let ghost gs = groups_view(groups@);
    let mut i: usize = 0;
    assert(texts(all@) =~= us.take(0));
    while i < members.len()
        invariant
            us == urls_of(members_of(members@)),
            i <= members@.len(),
            texts(all@) == us.take(i as int),
        decreases members@.len() - i,
    {
        proof {
            lemma_take_grows(us, i as int);
        }
        let ghost before = texts(all@);
        all.push(members[i].url.clone());
        assert(texts(all@) =~= before.push(us[i as int]));
        i += 1;
    }
    proof {
        lemma_take_all(us);
        assert(us + group_nodes(gs, 0) =~= us);
    }
    let mut k: usize = 0;
    while k < groups.len()
        invariant
            gs == groups_view(groups@),
            k <= groups@.len(),
            texts(all@) == us + group_nodes(gs, k as int),
        decreases groups@.len() - k,
    {
        let ghost before = texts(all@);
        all.push(groups[k].0.clone());
        let mut more = copy_list(&groups[k].1);
        let ghost rest = texts(more@);
        all.append(&mut more);
        proof {
            assert(gs[k as int] == (groups@[k as int].0@, rest));
            assert(texts(all@) =~= before + seq![gs[k as int].0] + rest);
            assert(before + seq![gs[k as int].0] + rest =~= us + group_nodes(gs, k + 1));
        }
        k += 1;
    }
    canonical(others(&all, own))
}

/// A view off the wire, cleaned and checked before it is taken: every node that takes one stores it
/// and hands it on. Cleaned ahead of the fingerprint, or an entry this node drops and an older peer
/// keeps reads as a difference every round.
pub fn accept_view(view: Option<ClusterMetadata>) -> (r: Option<ClusterMetadata>)
    ensures
        match r {
            Some(v) => view is Some && v@ == cleaned(view->0@) && v@.valid(),
            None => view is None || !cleaned(view->0@).valid(),
        },
{
    match view {
        Some(v) => {
            let mut v = v;
            let ghost before = v@;
            let _dropped = sanitize_catalog(&mut v.index_catalog);
            assert(v@ == cleaned(before));
            match v.validate() {
                Ok(()) => Some(v),
                Err(_) => None,
            }
        },
        None => None,
    }
}

/// A peer with the view it answered with.
pub struct Heard {
    pub target: String,
    pub view: ClusterMetadata,
}

/// The views of a list of answers.
pub open spec fn heard_views(h: Seq<Heard>) -> Seq<ClusterMetadataView> {
    Seq::new(h.len(), |i: int| h[i].view@)
}

/// A catalogue with those of the first `n` views merged into it, in order.
pub open spec fn gathered_catalog(own: CatalogView, v: Seq<ClusterMetadataView>, n: int) -> CatalogView
    decreases n,
{
    if n <= 0 { own } else { merged(gathered_catalog(own, v, n - 1), v[n - 1].index_catalog) }
}

/// Whether a merge takes an entry.
pub open spec fn takes_any(into: CatalogView, from: CatalogView) -> bool {
    exists|k: Seq<char>| taken(into, from, k)
}

/// Whether merging one of the first `n` views, in order, brings a definition that was not there.
pub open spec fn brings(own: CatalogView, v: Seq<ClusterMetadataView>, n: int) -> bool
    decreases n,
{
    n > 0 && (brings(own, v, n - 1) || takes_any(gathered_catalog(own, v, n - 1), v[n - 1].index_catalog))
}

/// Whether the view at position `i` is the one to adopt: it wins over ours and over every view that
/// came earlier and wins over ours, and none that came later wins over it.
pub open spec fn best_of_round(v: Seq<ClusterMetadataView>, ours: ViewIdView, i: int) -> bool {
    &&& 0 <= i < v.len()
    &&& v[i].id().supersedes(ours)
    &&& forall|j: int| 0 <= j < v.len() && (#[trigger] v[j]).id().supersedes(ours) ==> (j < i ==> v[i].supersedes(v[j]))
        && (j > i ==> !v[j].supersedes(v[i]))
}

/// What a round of gossip brings.
pub struct GossipRound {
    /// Whether any definition was taken.
    pub moved: bool,
    /// The position of the view to adopt, if any. Only the best of the round is adopted, not each in
    /// turn: an intermediate view would be persisted and reacted to on its way to one that already
    /// supersedes it.
    pub winner: Option<usize>,
    /// The fingerprint of each peer's catalogue.
    pub fingerprints: Vec<u64>,
}

proof fn lemma_winners_compare(ours: ViewIdView, a: ClusterMetadataView, b: ClusterMetadataView, c: ClusterMetadataView)
    requires
        a.id().supersedes(ours),
        b.id().supersedes(ours),
        c.id().supersedes(ours),
    ensures
        a.supersedes(b) && b.supersedes(c) ==> a.supersedes(c),
        !b.supersedes(a) && c.supersedes(a) ==> c.supersedes(b),
        !a.supersedes(a),
        a.supersedes(b) ==> !b.supersedes(a),
{
    law_winning_is_a_strict_order(a, b, c);
    law_winning_is_a_strict_order(c, a, b);
    law_winning_is_a_strict_order(a, a, a);
    law_published_views_are_comparable(a, b);
}

/// Takes every peer's definitions into `catalog`, and finds the view to adopt. Definitions can
/// originate anywhere: at a shard leader a client asked directly, or at the router that fanned one
/// out.
pub fn gossip_catalog(catalog: &mut IndexCatalog, ours: &ViewId, heard: &Vec<Heard>) -> (r: GossipRound)
    ensures
        catalogue(*final(catalog)) == gathered_catalog(catalogue(*old(catalog)), heard_views(heard@), heard@.len() as int),
        r.moved == brings(catalogue(*old(catalog)), heard_views(heard@), heard@.len() as int),
        !r.moved ==> catalogue(*final(catalog)) == catalogue(*old(catalog)),
        match r.winner {
            Some(i) => best_of_round(heard_views(heard@), ours@, i as int),
            None => forall|i: int| 0 <= i < heard@.len() ==> !(#[trigger] heard_views(heard@)[i]).id().supersedes(ours@),
        },
        r.fingerprints@.len() == heard@.len(),
        forall|i: int| 0 <= i < heard@.len() ==> fingerprint_of(heard_views(heard@)[i].index_catalog, #[trigger] r.fingerprints@[i]),
{
    let ghost v = heard_views(heard@);
    let ghost own = catalogue(*catalog);
    let mut moved = false;
    let mut winner: Option<usize> = None;
    let mut fingerprints: Vec<u64> = Vec::new();
    let mut i: usize = 0;
    while i < heard.len()
        invariant
            v == heard_views(heard@),
            i <= heard@.len(),
            catalogue(*catalog) == gathered_catalog(own, v, i as int),
            moved == brings(own, v, i as int),
            !moved ==> catalogue(*catalog) == own,
            fingerprints@.len() == i,
            forall|j: int| 0 <= j < i ==> fingerprint_of(v[j].index_catalog, #[trigger] fingerprints@[j]),
            match winner {
                Some(k) => k < i && v[k as int].id().supersedes(ours@) && forall|j: int| 0 <= j < i
                    && (#[trigger] v[j]).id().supersedes(ours@) ==> (j < k ==> v[k as int].supersedes(v[j]))
                    && (j > k ==> !v[j].supersedes(v[k as int])),
                None => forall|j: int| 0 <= j < i ==> !(#[trigger] v[j]).id().supersedes(ours@),
            },
        decreases heard@.len() - i,
    {
        let theirs = &heard[i].view;
        assert(v[i as int] == theirs@);
        let ghost before = catalogue(*catalog);
        fingerprints.push(theirs.catalog_fingerprint());
        let took = merge_catalog(catalog, &theirs.index_catalog);
        proof {
            if !took {
                assert(merged(before, theirs@.index_catalog) =~= before);
            }
        }
        if took {
            moved = true;
        }
        if theirs.view_id().supersedes(ours) {
            let better = match winner {
                Some(k) => theirs.supersedes(&heard[k].view),
                None => true,
            };
            proof {
                if winner is Some {
                    let k = winner->0 as int;
                    assert(v[k] == heard@[k].view@);
                    assert forall|j: int| 0 <= j < i && (#[trigger] v[j]).id().supersedes(ours@) && better implies v[i as int].supersedes(v[j]) by {
                        lemma_winners_compare(ours@, v[i as int], v[k], v[j]);
                        lemma_winners_compare(ours@, v[k], v[j], v[i as int]);
                    }
                }
            }
            if better {
                winner = Some(i);
            }
        }
        i += 1;
    }
    GossipRound { moved, winner, fingerprints }
}

/// `f` is the fingerprint of a catalogue.
pub open spec fn fingerprint_of(c: CatalogView, f: u64) -> bool {
    exists|ks: Seq<Seq<char>>| crate::name_map::increasing(ks) && ks.to_set() == c.dom()
        && f == super::metadata::print_of(#[trigger] super::metadata::entry_parts(c, ks))
}

/// The peers, among the first `n`, whose catalogue is not ours.
pub open spec fn differing(h: Seq<Heard>, fingerprints: Seq<u64>, ours: u64, n: int) -> Seq<Seq<char>>
    decreases n,
{
    if n <= 0 {
        Seq::empty()
    } else {
        let before = differing(h, fingerprints, ours, n - 1);
        if fingerprints[n - 1] != ours { before.push(h[n - 1].target@) } else { before }
    }
}

/// The peers to hand our view to: those whose catalogue differs from ours by now, so that a peer is
/// only sent a view that is already the union.
pub fn hand_back(heard: &Vec<Heard>, fingerprints: &Vec<u64>, ours: u64) -> (r: Vec<String>)
    requires
        heard@.len() == fingerprints@.len(),
    ensures
        texts(r@) == differing(heard@, fingerprints@, ours, heard@.len() as int),
{
    let mut out: Vec<String> = Vec::new();
    let mut i: usize = 0;
    assert(texts(out@) =~= Seq::empty());
    while i < heard.len()
        invariant
            heard@.len() == fingerprints@.len(),
            i <= heard@.len(),
            texts(out@) == differing(heard@, fingerprints@, ours, i as int),
        decreases heard@.len() - i,
    {
        let ghost before = texts(out@);
        if fingerprints[i] != ours {
            out.push(heard[i].target.clone());
            assert(texts(out@) =~= before.push(heard@[i as int].target@));
        }
        i += 1;
    }
    out
}

// ---- Reconciliation ----

/// The wanted definitions, among the first `n`, that are not there.
pub open spec fn missing(want: Seq<IndexSpecView>, have: Seq<IndexSpecView>, n: int) -> Seq<IndexSpecView>
    decreases n,
{
    if n <= 0 {
        Seq::empty()
    } else {
        let before = missing(want, have, n - 1);
        if have.contains(want[n - 1]) { before } else { before.push(want[n - 1]) }
    }
}

/// The names, among the first `n` definitions there, that are not wanted.
pub open spec fn surplus(want: Seq<IndexSpecView>, have: Seq<IndexSpecView>, n: int) -> Seq<Seq<char>>
    decreases n,
{
    if n <= 0 {
        Seq::empty()
    } else {
        let before = surplus(want, have, n - 1);
        if has_index(want, have[n - 1].name) { before } else { before.push(have[n - 1].name) }
    }
}

fn holds_spec(v: &[IndexSpec], s: &IndexSpec) -> (r: bool)
    ensures
        r == specs(v@).contains(s@),
{
    let mut i: usize = 0;
    while i < v.len()
        invariant
            i <= v@.len(),
            forall|j: int| 0 <= j < i ==> (#[trigger] v@[j])@ != s@,
        decreases v@.len() - i,
    {
        if same_spec(&v[i], s) {
            assert(specs(v@)[i as int] == s@);
            return true;
        }
        i += 1;
    }
    false
}

fn names_spec(v: &[IndexSpec], name: &str) -> (r: bool)
    ensures
        r == has_index(specs(v@), name@),
{
    let ghost all = specs(v@);
    let mut i: usize = 0;
    while i < v.len()
        invariant
            all == specs(v@),
            i <= v@.len(),
            forall|j: int| 0 <= j < i ==> (#[trigger] all[j]).name != name@,
        decreases v@.len() - i,
    {
        if same_text(v[i].name.as_str(), name) {
            assert(all[i as int].name == name@);
            return true;
        }
        i += 1;
    }
    false
}

/// What this group has to append or drop to match the catalogue. A definition is matched on name
/// *and* field, so a redefinition elsewhere is a create here rather than something already in hand.
pub fn diff(want: &[IndexSpec], have: &[IndexSpec]) -> (r: (Vec<IndexSpec>, Vec<String>))
    ensures
        specs(r.0@) == missing(specs(want@), specs(have@), want@.len() as int),
        texts(r.1@) == surplus(specs(want@), specs(have@), have@.len() as int),
{
    let ghost w = specs(want@);
    let ghost h = specs(have@);
    let mut create: Vec<IndexSpec> = Vec::new();
    let mut i: usize = 0;
    assert(specs(create@) =~= Seq::empty());
    while i < want.len()
        invariant
            w == specs(want@),
            h == specs(have@),
            i <= want@.len(),
            specs(create@) == missing(w, h, i as int),
        decreases want@.len() - i,
    {
        let ghost before = specs(create@);
        assert(w[i as int] == want@[i as int]@);
        if !holds_spec(have, &want[i]) {
            create.push(want[i].clone());
            assert(specs(create@) =~= before.push(w[i as int]));
        }
        i += 1;
    }
    let mut gone: Vec<String> = Vec::new();
    let mut k: usize = 0;
    assert(texts(gone@) =~= Seq::empty());
    while k < have.len()
        invariant
            w == specs(want@),
            h == specs(have@),
            k <= have@.len(),
            texts(gone@) == surplus(w, h, k as int),
        decreases have@.len() - k,
    {
        let ghost before = texts(gone@);
        assert(h[k as int] == have@[k as int]@);
        if !names_spec(want, have[k].name.as_str()) {
            gone.push(have[k].name.clone());
            assert(texts(gone@) =~= before.push(h[k as int].name));
        }
        k += 1;
    }
    (create, gone)
}

/// The contents of a list of changes.
pub open spec fn changes_of(v: Seq<IndexChange>) -> Seq<IndexChangeView> {
    Seq::new(v.len(), |i: int| v[i]@)
}

/// The changes that bring `have` to `want`: first what is missing, then what is surplus.
pub open spec fn changes_to(want: Seq<IndexSpecView>, have: Seq<IndexSpecView>) -> Seq<IndexChangeView> {
    let create = missing(want, have, want.len() as int);
    let gone = surplus(want, have, have.len() as int);
    Seq::new(create.len(), |i: int| IndexChangeView::Create { spec: create[i] }) + Seq::new(
        gone.len(),
        |i: int| IndexChangeView::Drop { name: gone[i] },
    )
}

/// Brings this group's log into line with one entry of the catalogue. Only the leader appends. A
/// collection that the group does not hold, or has dropped, is left alone, and so is a system log;
/// `have` are the definitions in force, so one still staged is not appended a second time.
pub fn reconcile_local_indexes(
    leads_shard: bool,
    collection: &str,
    entry: &CollectionIndexes,
    have: Option<&Vec<IndexSpec>>,
) -> (r: Vec<IndexChange>)
    ensures
        changes_of(r@) == (if !leads_shard || system_name(collection@) || have is None {
            Seq::empty()
        } else {
            changes_to(entry@.indexes, specs(have->0@))
        }),
{
    let mut out: Vec<IndexChange> = Vec::new();
    assert(changes_of(out@) =~= Seq::empty());
    if !leads_shard || is_system_collection(collection) {
        return out;
    }
    let have = match have {
        Some(h) => h,
        None => {
            return out;
        },
    };
    let (create, gone) = diff(entry.indexes.as_slice(), have.as_slice());
    let ghost cs = specs(create@);
    let ghost ds = texts(gone@);
    let ghost first = Seq::new(cs.len(), |i: int| IndexChangeView::Create { spec: cs[i] });
    let ghost second = Seq::new(ds.len(), |i: int| IndexChangeView::Drop { name: ds[i] });
    let mut i: usize = 0;
    assert(changes_of(out@) =~= first.take(0));
    while i < create.len()
        invariant
            cs == specs(create@),
            first == Seq::new(cs.len(), |i: int| IndexChangeView::Create { spec: cs[i] }),
            i <= create@.len(),
            changes_of(out@) == first.take(i as int),
        decreases create@.len() - i,
    {
        proof {
            lemma_take_grows(first, i as int);
        }
        let ghost before = changes_of(out@);
        out.push(IndexChange::Create { spec: create[i].clone() });
        assert(changes_of(out@) =~= before.push(first[i as int]));
        i += 1;
    }
    proof {
        lemma_take_all(first);
        assert(first + second.take(0) =~= first);
    }
    let mut k: usize = 0;
    while k < gone.len()
        invariant
            ds == texts(gone@),
            second == Seq::new(ds.len(), |i: int| IndexChangeView::Drop { name: ds[i] }),
            k <= gone@.len(),
            changes_of(out@) == first + second.take(k as int),
        decreases gone@.len() - k,
    {
        proof {
            lemma_take_grows(second, k as int);
        }
        let ghost before = changes_of(out@);
        out.push(IndexChange::Drop { name: gone[k].clone() });
        assert(changes_of(out@) =~= before.push(second[k as int]));
        assert(before.push(second[k as int]) =~= first + second.take(k + 1));
        k += 1;
    }
    proof {
        lemma_take_all(second);
    }
    out
}

/// How a change is written in the log.
pub fn describe(change: &IndexChange) -> (r: String)
    ensures
        r@ == (match change@ {
            IndexChangeView::Create { spec } => "create "@ + spec.name + " on "@ + spec.field,
            IndexChangeView::Drop { name } => "drop "@ + name,
        }),
{
    match change {
        IndexChange::Create { spec } => cat4("create ", spec.name.as_str(), " on ", spec.field.as_str()),
        IndexChange::Drop { name } => cat2("drop ", name.as_str()),
    }
}

// ---- Laws ----

/// Each name stands once.
pub open spec fn distinct_names(v: Seq<IndexSpecView>) -> bool {
    forall|i: int, j: int| 0 <= i < j < v.len() ==> (#[trigger] v[i]).name != (#[trigger] v[j]).name
}

/// The definitions after the first `n` changes.
pub open spec fn after_changes(have: Seq<IndexSpecView>, changes: Seq<IndexChangeView>, n: int) -> Seq<IndexSpecView>
    decreases n,
{
    if n <= 0 { have } else { changes[n - 1].applied(after_changes(have, changes, n - 1)) }
}

/// A group that holds what the catalogue names has nothing to do, in whatever order it holds it.
pub proof fn law_order_is_no_difference(want: Seq<IndexSpecView>, have: Seq<IndexSpecView>)
    requires
        forall|s: IndexSpecView| want.contains(s) <==> have.contains(s),
    ensures
        changes_to(want, have).len() == 0,
{
    lemma_nothing_missing(want, have, want.len() as int);
    lemma_nothing_surplus(want, have, have.len() as int);
}

proof fn lemma_nothing_missing(want: Seq<IndexSpecView>, have: Seq<IndexSpecView>, n: int)
    requires
        0 <= n <= want.len(),
        forall|s: IndexSpecView| want.contains(s) ==> have.contains(s),
    ensures
        missing(want, have, n).len() == 0,
    decreases n,
{
    if n > 0 {
        lemma_nothing_missing(want, have, n - 1);
        assert(want.contains(want[n - 1]));
    }
}

proof fn lemma_nothing_surplus(want: Seq<IndexSpecView>, have: Seq<IndexSpecView>, n: int)
    requires
        0 <= n <= have.len(),
        forall|s: IndexSpecView| have.contains(s) ==> want.contains(s),
    ensures
        surplus(want, have, n).len() == 0,
    decreases n,
{
    if n > 0 {
        lemma_nothing_surplus(want, have, n - 1);
        assert(have.contains(have[n - 1]));
        let i = choose|i: int| 0 <= i < want.len() && want[i] == have[n - 1];
        assert(want[i].name == have[n - 1].name);
    }
}

/// What one change does to whether a definition is there.
pub proof fn lemma_one_change(v: Seq<IndexSpecView>, change: IndexChangeView, s: IndexSpecView)
    ensures
        change.applied(v).contains(s) <==> (match change {
            IndexChangeView::Create { spec } => if s.name == spec.name { s == spec } else { v.contains(s) },
            IndexChangeView::Drop { name } => s.name != name && v.contains(s),
        }),
{
    let r = change.applied(v);
    match change {
        IndexChangeView::Create { spec } => {
            if has_index(v, spec.name) {
                let k = choose|k: int| 0 <= k < v.len() && (#[trigger] v[k]).name == spec.name;
                assert(r[k] == spec);
                if v.contains(s) && s.name != spec.name {
                    let i = choose|i: int| 0 <= i < v.len() && v[i] == s;
                    assert(r[i] == s);
                }
                if r.contains(s) {
                    let i = choose|i: int| 0 <= i < r.len() && r[i] == s;
                    assert(r[i] == if v[i].name == spec.name { spec } else { v[i] });
                }
            } else {
                assert(r[v.len() as int] == spec);
                if v.contains(s) {
                    let i = choose|i: int| 0 <= i < v.len() && v[i] == s;
                    assert(r[i] == s);
                }
                if r.contains(s) && s != spec {
                    let i = choose|i: int| 0 <= i < r.len() && r[i] == s;
                    assert(v[i] == s);
                }
            }
        },
        IndexChangeView::Drop { name } => {
            lemma_without_contains(v, name, s);
        },
    }
}

proof fn lemma_without_contains(v: Seq<IndexSpecView>, name: Seq<char>, s: IndexSpecView)
    ensures
        without_index(v, name).contains(s) <==> s.name != name && v.contains(s),
    decreases v.len(),
{
    if v.len() > 0 {
        let rest = v.drop_last();
        lemma_without_contains(rest, name, s);
        let before = without_index(rest, name);
        let r = without_index(v, name);
        if v.contains(s) && !rest.contains(s) {
            let i = choose|i: int| 0 <= i < v.len() && v[i] == s;
            if i < rest.len() {
                assert(rest[i] == s);
            }
        }
        if rest.contains(s) {
            let i = choose|i: int| 0 <= i < rest.len() && rest[i] == s;
            assert(v[i] == s);
        }
        if v.last().name != name {
            assert(r[before.len() as int] == v.last());
            if before.contains(s) {
                let i = choose|i: int| 0 <= i < before.len() && before[i] == s;
                assert(r[i] == s);
            }
            if r.contains(s) && s != v.last() {
                let i = choose|i: int| 0 <= i < r.len() && r[i] == s;
                assert(before[i] == s);
            }
            assert(v[v.len() - 1] == v.last());
        }
    }
}

proof fn lemma_missing_contains(want: Seq<IndexSpecView>, have: Seq<IndexSpecView>, n: int, s: IndexSpecView)
    requires
        0 <= n <= want.len(),
    ensures
        missing(want, have, n).contains(s) <==> want.take(n).contains(s) && !have.contains(s),
    decreases n,
{
    if n > 0 {
        lemma_missing_contains(want, have, n - 1, s);
        lemma_take_grows(want, n - 1);
        let before = missing(want, have, n - 1);
        let r = missing(want, have, n);
        if !have.contains(want[n - 1]) {
            assert(r[before.len() as int] == want[n - 1]);
            if before.contains(s) {
                let i = choose|i: int| 0 <= i < before.len() && before[i] == s;
                assert(r[i] == s);
            }
            if r.contains(s) && s != want[n - 1] {
                let i = choose|i: int| 0 <= i < r.len() && r[i] == s;
                assert(before[i] == s);
            }
        }
    } else {
        assert(!want.take(0).contains(s));
    }
}

proof fn lemma_surplus_contains(want: Seq<IndexSpecView>, have: Seq<IndexSpecView>, n: int, name: Seq<char>)
    requires
        0 <= n <= have.len(),
    ensures
        surplus(want, have, n).contains(name) <==> has_index(have.take(n), name) && !has_index(want, name),
    decreases n,
{
    let h = have.take(n);
    if n > 0 {
        lemma_surplus_contains(want, have, n - 1, name);
        lemma_take_grows(have, n - 1);
        let g = have.take(n - 1);
        if has_index(g, name) {
            let i = choose|i: int| 0 <= i < g.len() && (#[trigger] g[i]).name == name;
            assert(h[i].name == name);
        }
        assert(h[n - 1] == have[n - 1]);
        if has_index(h, name) && have[n - 1].name != name {
            let i = choose|i: int| 0 <= i < h.len() && (#[trigger] h[i]).name == name;
            assert(g[i].name == name);
        }
        let before = surplus(want, have, n - 1);
        let r = surplus(want, have, n);
        if !has_index(want, have[n - 1].name) {
            assert(r[before.len() as int] == have[n - 1].name);
            if before.contains(name) {
                let i = choose|i: int| 0 <= i < before.len() && before[i] == name;
                assert(r[i] == name);
            }
            if r.contains(name) && name != have[n - 1].name {
                let i = choose|i: int| 0 <= i < r.len() && r[i] == name;
                assert(before[i] == name);
            }
        }
    } else {
        assert(!has_index(h, name));
    }
}

/// After the creations, a definition is there if it was created, or was there under a name that was
/// not.
proof fn lemma_after_creates(want: Seq<IndexSpecView>, have: Seq<IndexSpecView>, n: int, s: IndexSpecView)
    requires
        distinct_names(want),
        0 <= n <= missing(want, have, want.len() as int).len(),
    ensures
        ({
            let create = missing(want, have, want.len() as int);
            after_changes(have, changes_to(want, have), n).contains(s) <==> (if has_index(create.take(n), s.name) {
                create.take(n).contains(s)
            } else {
                have.contains(s)
            })
        }),
    decreases n,
{
    let create = missing(want, have, want.len() as int);
    let changes = changes_to(want, have);
    if n > 0 {
        lemma_after_creates(want, have, n - 1, s);
        lemma_take_grows(create, n - 1);
        let v = after_changes(have, changes, n - 1);
        let spec = create[n - 1];
        assert(changes[n - 1] == IndexChangeView::Create { spec });
        lemma_one_change(v, changes[n - 1], s);
        let (a, b) = (create.take(n - 1), create.take(n));
        if has_index(a, s.name) {
            let i = choose|i: int| 0 <= i < a.len() && (#[trigger] a[i]).name == s.name;
            assert(b[i].name == s.name);
        }
        assert(b[n - 1] == spec);
        if has_index(b, s.name) && spec.name != s.name {
            let i = choose|i: int| 0 <= i < b.len() && (#[trigger] b[i]).name == s.name;
            assert(a[i].name == s.name);
        }
        if s.name == spec.name && a.contains(s) {
            let i = choose|i: int| 0 <= i < a.len() && a[i] == s;
            lemma_missing_distinct(want, have, want.len() as int, i, n - 1);
            assert(create[i] == s);
        }
    } else {
        assert(!has_index(create.take(0), s.name));
    }
}

proof fn lemma_missing_distinct(want: Seq<IndexSpecView>, have: Seq<IndexSpecView>, n: int, i: int, j: int)
    requires
        distinct_names(want),
        0 <= n <= want.len(),
        0 <= i < j < missing(want, have, n).len(),
    ensures
        missing(want, have, n)[i].name != missing(want, have, n)[j].name,
    decreases n,
{
    if n > 0 {
        let before = missing(want, have, n - 1);
        if j < before.len() {
            lemma_missing_distinct(want, have, n - 1, i, j);
        } else {
            lemma_missing_contains(want, have, n - 1, before[i]);
            assert(before.contains(before[i]));
            let k = choose|k: int| 0 <= k < n - 1 && #[trigger] want.take(n - 1)[k] == before[i];
            assert(want[k] == before[i]);
            assert(want[k].name != want[n - 1].name);
        }
    }
}

/// After the first `n` drops, what is there is what was there under another name.
proof fn lemma_after_drops(want: Seq<IndexSpecView>, have: Seq<IndexSpecView>, n: int, s: IndexSpecView)
    requires
        0 <= n <= surplus(want, have, have.len() as int).len(),
    ensures
        ({
            let create = missing(want, have, want.len() as int);
            let gone = surplus(want, have, have.len() as int);
            let changes = changes_to(want, have);
            after_changes(have, changes, create.len() + n).contains(s) <==> after_changes(have, changes, create.len() as int).contains(s)
                && !gone.take(n).contains(s.name)
        }),
    decreases n,
{
    let create = missing(want, have, want.len() as int);
    let gone = surplus(want, have, have.len() as int);
    let changes = changes_to(want, have);
    if n > 0 {
        lemma_after_drops(want, have, n - 1, s);
        lemma_take_grows(gone, n - 1);
        assert(changes[create.len() + n - 1] == IndexChangeView::Drop { name: gone[n - 1] });
        lemma_one_change(after_changes(have, changes, create.len() + n - 1), changes[create.len() + n - 1], s);
    } else {
        assert(!gone.take(0).contains(s.name));
    }
}

/// The changes that reconciliation makes bring a group to exactly the definitions the catalogue
/// names.
pub proof fn law_reconciliation_reaches_the_catalogue(want: Seq<IndexSpecView>, have: Seq<IndexSpecView>, s: IndexSpecView)
    requires
        distinct_names(want),
        distinct_names(have),
    ensures
        after_changes(have, changes_to(want, have), changes_to(want, have).len() as int).contains(s) <==> want.contains(s),
{
    let create = missing(want, have, want.len() as int);
    let gone = surplus(want, have, have.len() as int);
    lemma_after_creates(want, have, create.len() as int, s);
    lemma_after_drops(want, have, gone.len() as int, s);
    lemma_take_all(create);
    lemma_take_all(gone);
    lemma_take_all(want);
    lemma_take_all(have);
    lemma_missing_contains(want, have, want.len() as int, s);
    lemma_surplus_contains(want, have, have.len() as int, s.name);
    if has_index(want, s.name) {
        let i = choose|i: int| 0 <= i < want.len() && (#[trigger] want[i]).name == s.name;
        let w = want[i];
        assert(want.contains(w));
        lemma_missing_contains(want, have, want.len() as int, w);
        assert forall|q: int| 0 <= q < want.len() && (#[trigger] want[q]).name == s.name implies q == i by {
            if q < i {
                assert(want[q].name != want[i].name);
            } else if i < q {
                assert(want[i].name != want[q].name);
            }
        }
        if have.contains(w) {
            let k = choose|k: int| 0 <= k < have.len() && have[k] == w;
            assert forall|q: int| 0 <= q < have.len() && (#[trigger] have[q]).name == s.name implies q == k by {
                if q < k {
                    assert(have[q].name != have[k].name);
                } else if k < q {
                    assert(have[k].name != have[q].name);
                }
            }
            if has_index(create, s.name) {
                let m = choose|m: int| 0 <= m < create.len() && (#[trigger] create[m]).name == s.name;
                lemma_missing_contains(want, have, want.len() as int, create[m]);
                assert(create.contains(create[m]));
                let q = choose|q: int| 0 <= q < want.len() && want[q] == create[m];
                assert(want[q].name == s.name);
            }
        } else {
            assert(create.contains(w));
            let m = choose|m: int| 0 <= m < create.len() && create[m] == w;
            assert(create[m].name == s.name);
        }
        if want.contains(s) {
            let q = choose|q: int| 0 <= q < want.len() && want[q] == s;
            assert(want[q].name == s.name);
        }
        if have.contains(s) {
            let q = choose|q: int| 0 <= q < have.len() && have[q] == s;
            assert(have[q].name == s.name);
        }
    } else {
        if want.contains(s) {
            let q = choose|q: int| 0 <= q < want.len() && want[q] == s;
            assert(want[q].name == s.name);
        }
        if has_index(create, s.name) {
            let m = choose|m: int| 0 <= m < create.len() && (#[trigger] create[m]).name == s.name;
            lemma_missing_contains(want, have, want.len() as int, create[m]);
            assert(create.contains(create[m]));
            let q = choose|q: int| 0 <= q < want.len() && want[q] == create[m];
            assert(want[q].name == s.name);
        }
        if have.contains(s) {
            let q = choose|q: int| 0 <= q < have.len() && have[q] == s;
            assert(have[q].name == s.name);
            assert(has_index(have, s.name));
        }
    }
}

/// What a group has to create are the definitions that the catalogue names and it does not hold; what
/// it has to drop are the names that it holds and the catalogue does not name.
pub proof fn law_only_differences_are_mended(want: Seq<IndexSpecView>, have: Seq<IndexSpecView>, s: IndexSpecView, name: Seq<char>)
    ensures
        missing(want, have, want.len() as int).contains(s) <==> want.contains(s) && !have.contains(s),
        surplus(want, have, have.len() as int).contains(name) <==> (exists|i: int| 0 <= i < have.len() && (#[trigger] have[i]).name == name)
            && forall|i: int| 0 <= i < want.len() ==> (#[trigger] want[i]).name != name,
{
    lemma_missing_holds(want, have, want.len() as int, s);
    lemma_surplus_holds(want, have, have.len() as int, name);
    lemma_take_all(want);
}

proof fn lemma_missing_holds(want: Seq<IndexSpecView>, have: Seq<IndexSpecView>, n: int, s: IndexSpecView)
    requires
        0 <= n <= want.len(),
    ensures
        missing(want, have, n).contains(s) <==> want.take(n).contains(s) && !have.contains(s),
    decreases n,
{
    lemma_joined_hold::<IndexSpecView>();
    if n > 0 {
        lemma_missing_holds(want, have, n - 1, s);
        lemma_take_grows(want, n - 1);
    }
}

proof fn lemma_surplus_holds(want: Seq<IndexSpecView>, have: Seq<IndexSpecView>, n: int, name: Seq<char>)
    requires
        0 <= n <= have.len(),
    ensures
        surplus(want, have, n).contains(name) <==> (exists|i: int| 0 <= i < n && (#[trigger] have[i]).name == name) && !has_index(want, name),
    decreases n,
{
    lemma_joined_hold::<Seq<char>>();
    if n > 0 {
        lemma_surplus_holds(want, have, n - 1, name);
    }
}

/// A peer is handed our view exactly where its catalogue is not ours.
pub proof fn law_whoever_differs_is_handed_our_view(h: Seq<Heard>, fingerprints: Seq<u64>, ours: u64, n: int, target: Seq<char>)
    requires
        0 <= n <= h.len(),
        h.len() == fingerprints.len(),
    ensures
        differing(h, fingerprints, ours, n).contains(target) <==> exists|i: int|
            0 <= i < n && (#[trigger] h[i]).target@ == target && fingerprints[i] != ours,
    decreases n,
{
    lemma_joined_hold::<Seq<char>>();
    if n > 0 {
        law_whoever_differs_is_handed_our_view(h, fingerprints, ours, n - 1, target);
    }
}

/// A round of gossip takes in every catalogue that it heard: what comes out holds each of their
/// collections that can be acted on, never with an older entry than anybody had.
pub proof fn law_a_round_takes_in_every_catalogue(own: CatalogView, v: Seq<ClusterMetadataView>, n: int, k: Seq<char>)
    requires
        0 <= n <= v.len(),
    ensures
        ({
            let all = gathered_catalog(own, v, n);
            let usable = |i: int| v[i].index_catalog.dom().contains(k) && entry_fault(k, v[i].index_catalog[k]) is None;
            &&& own.dom().contains(k) ==> all.dom().contains(k) && !own[k].supersedes(all[k])
            &&& forall|i: int| 0 <= i < n && #[trigger] usable(i) ==> all.dom().contains(k) && !v[i].index_catalog[k].supersedes(all[k])
            &&& all.dom().contains(k) ==> (own.dom().contains(k) && all[k] == own[k]) || exists|i: int|
                0 <= i < n && #[trigger] usable(i) && all[k] == v[i].index_catalog[k]
        }),
    decreases n,
{
    if n > 0 {
        let before = gathered_catalog(own, v, n - 1);
        let from = v[n - 1].index_catalog;
        let all = gathered_catalog(own, v, n);
        let usable = |i: int| v[i].index_catalog.dom().contains(k) && entry_fault(k, v[i].index_catalog[k]) is None;
        law_a_round_takes_in_every_catalogue(own, v, n - 1, k);
        law_a_merge_holds_the_newer_entry(before, from, k);
        if before.dom().contains(k) {
            law_a_merge_never_goes_back(before, from, k);
            if own.dom().contains(k) {
                law_newer_is_a_strict_order(own[k], all[k], before[k]);
                law_newer_is_a_strict_order(all[k], before[k], own[k]);
            }
            assert forall|i: int| 0 <= i < n && #[trigger] usable(i) implies !v[i].index_catalog[k].supersedes(all[k]) by {
                if i < n - 1 {
                    assert(!v[i].index_catalog[k].supersedes(before[k]));
                    law_newer_is_a_strict_order(v[i].index_catalog[k], all[k], before[k]);
                }
            }
        }
        if all.dom().contains(k) && all[k] == from[k] && from.dom().contains(k) && entry_fault(k, from[k]) is None {
            assert(usable(n - 1));
        } else if all.dom().contains(k) && !(own.dom().contains(k) && all[k] == own[k]) {
            let i = choose|i: int| 0 <= i < n - 1 && #[trigger] usable(i) && before[k] == v[i].index_catalog[k];
            assert(usable(i));
        }
    } else {
        law_newer_is_a_strict_order(own[k], own[k], own[k]);
    }
}

/// A round of gossip says that it brought something exactly where the catalogue is another after it.
pub proof fn law_a_round_says_whether_it_moved_the_catalogue(own: CatalogView, v: Seq<ClusterMetadataView>, n: int)
    requires
        0 <= n <= v.len(),
    ensures
        brings(own, v, n) <==> gathered_catalog(own, v, n) != own,
    decreases n,
{
    if n > 0 {
        let before = gathered_catalog(own, v, n - 1);
        let from = v[n - 1].index_catalog;
        let all = gathered_catalog(own, v, n);
        law_a_round_says_whether_it_moved_the_catalogue(own, v, n - 1);
        law_a_merge_moves_where_it_takes(before, from);
        if brings(own, v, n) && all == own {
            assert(takes_any(before, from) || brings(own, v, n - 1));
            assert forall|k: Seq<char>| before.dom().contains(k) <==> own.dom().contains(k) by {
                law_a_round_takes_in_every_catalogue(own, v, n - 1, k);
                if before.dom().contains(k) {
                    law_a_merge_never_goes_back(before, from, k);
                }
            }
            assert forall|k: Seq<char>| before.dom().contains(k) implies #[trigger] before[k] == own[k] by {
                lemma_only_newer(own, v, n - 1, k);
                law_a_merge_never_goes_back(before, from, k);
                law_newer_is_a_strict_order(before[k], own[k], before[k]);
            }
            assert(before =~= own);
        }
    }
}

proof fn lemma_only_newer(own: CatalogView, v: Seq<ClusterMetadataView>, n: int, k: Seq<char>)
    requires
        0 <= n <= v.len(),
        own.dom().contains(k),
    ensures
        gathered_catalog(own, v, n).dom().contains(k),
        gathered_catalog(own, v, n)[k] == own[k] || gathered_catalog(own, v, n)[k].supersedes(own[k]),
    decreases n,
{
    if n > 0 {
        let before = gathered_catalog(own, v, n - 1);
        lemma_only_newer(own, v, n - 1, k);
        law_a_merge_never_goes_back(before, v[n - 1].index_catalog, k);
        law_newer_is_a_strict_order(gathered_catalog(own, v, n)[k], before[k], own[k]);
    }
}

proof fn lemma_group_nodes(g: Seq<GroupView>, n: int, url: Seq<char>)
    requires
        0 <= n <= g.len(),
    ensures
        group_nodes(g, n).contains(url) <==> exists|i: int| 0 <= i < n && ((#[trigger] g[i]).0 == url || g[i].1.contains(url)),
    decreases n,
{
    lemma_joined_hold::<Seq<char>>();
    if n > 0 {
        lemma_group_nodes(g, n - 1, url);
        let one = seq![g[n - 1].0];
        assert(one =~= Seq::<Seq<char>>::empty().push(g[n - 1].0));
        assert(one.contains(url) <==> url == g[n - 1].0);
        assert(group_nodes(g, n) == group_nodes(g, n - 1) + one + g[n - 1].1);
        assert((group_nodes(g, n - 1) + one).contains(url) <==> group_nodes(g, n - 1).contains(url) || one.contains(url));
    }
}

/// Gossip reaches every node that can be named: each member, each group's primary as it is taken for
/// now and each of its replicas; every node once, and never this one.
pub proof fn law_gossip_reaches_everybody(
    members: Seq<Seq<char>>,
    g: Seq<GroupView>,
    overrides: Map<Seq<char>, String>,
    own: Seq<char>,
    n: Seq<char>,
)
    ensures
        ({
            let groups = led_now(g, overrides);
            let targets = canon(without_node(members + group_nodes(groups, groups.len() as int), own));
            &&& names(targets, n) <==> n != node(own) && (names(members, n) || exists|i: int|
                0 <= i < g.len() && (node(effective_of(overrides, (#[trigger] g[i]).0)) == n || names(g[i].1, n)))
            &&& one_per_node(targets)
        }),
{
    let groups = led_now(g, overrides);
    let all = group_nodes(groups, groups.len() as int);
    let known = members + all;
    let targets = canon(without_node(known, own));
    law_canon_names_each_node_once(without_node(known, own));
    law_others_leave_one_node_out(known, own);
    assert(nodes(targets).contains(n) <==> nodes(known).remove(node(own)).contains(n));
    if names(known, n) {
        let i = choose|i: int| 0 <= i < known.len() && node(#[trigger] known[i]) == n;
        if i < members.len() {
            assert(members[i] == known[i]);
        } else {
            assert(all[i - members.len()] == known[i]);
            lemma_group_nodes(groups, groups.len() as int, known[i]);
            let k = choose|k: int| 0 <= k < groups.len() && ((#[trigger] groups[k]).0 == known[i] || groups[k].1.contains(known[i]));
            assert(groups[k] == (effective_of(overrides, g[k].0), g[k].1));
            if groups[k].1.contains(known[i]) {
                let j = choose|j: int| 0 <= j < groups[k].1.len() && groups[k].1[j] == known[i];
                assert(node(g[k].1[j]) == n);
            }
        }
    }
    if names(members, n) {
        let i = choose|i: int| 0 <= i < members.len() && node(#[trigger] members[i]) == n;
        assert(known[i] == members[i]);
    }
    if exists|i: int| 0 <= i < g.len() && (node(effective_of(overrides, (#[trigger] g[i]).0)) == n || names(g[i].1, n)) {
        let k = choose|i: int| 0 <= i < g.len() && (node(effective_of(overrides, (#[trigger] g[i]).0)) == n || names(g[i].1, n));
        assert(groups[k] == (effective_of(overrides, g[k].0), g[k].1));
        let url = if node(groups[k].0) == n {
            groups[k].0
        } else {
            g[k].1[choose|j: int| 0 <= j < g[k].1.len() && node(#[trigger] g[k].1[j]) == n]
        };
        assert(groups[k].0 == url || groups[k].1.contains(url));
        lemma_group_nodes(groups, groups.len() as int, url);
        let i = choose|i: int| 0 <= i < all.len() && all[i] == url;
        assert(known[members.len() + i] == url);
    }
}


/// The view that a round adopts wins over ours, and no view of the round wins over it.
pub proof fn law_no_view_of_a_round_wins_over_the_adopted(v: Seq<ClusterMetadataView>, ours: ViewIdView, i: int, j: int)
    requires
        best_of_round(v, ours, i),
        0 <= j < v.len(),
        v[j].id().supersedes(ours),
    ensures
        v[i].id().supersedes(ours),
        !v[j].supersedes(v[i]),
        j < i ==> v[i].supersedes(v[j]),
{
    law_winning_is_a_strict_order(v[i], v[j], v[i]);
}

} // verus!
