//! The simulation state, its invariant, the epoch driver and the ordered
//! exchange with each shepherd, with the laws they keep.

use crate::feed::Feed;
use crate::graph::{
    adjacent, all_below, lemma_wired_run_grows, tag_edge, wired_run, wired_runs, group_ids, lemma_linked_within_concat, lemma_linked_within_grows, linked_within, tags_in,
    Simulation as SimulationGraph, MAX_EDGES,
};
use crate::ids::{from_ids, ids, EpochId, GraphId, ItemId, NodeType, SheepId, ShepherdId, TagId};
use crate::rng::uniform_in;
use crate::sheep::{process_feed, responds};
use crate::shepherd::SimulationEvent;
use rand::rngs::StdRng;
use vstd::math::min;
use vstd::multiset::Multiset;
use vstd::prelude::*;

verus! {

broadcast use vstd::seq_lib::group_to_multiset_ensures;

/// Tunables of the simulation; each pair of bounds is inclusive
pub struct Settings {
    /// Bounds on the number of tags added at the start of each epoch
    pub n_tags_bounds: (usize, usize),
    /// Bounds on the number of items added at the start of each epoch
    pub n_items_bounds: (usize, usize),
    /// Bounds on the number of tags assigned to a new item
    pub n_item_tags_bounds: (usize, usize),
    /// Bounds on the number of tags a sheep has
    pub n_sheep_tags_bounds: (usize, usize),
    /// Bounds on the initial number of tags used to seed the simulation
    pub initial_n_tags_bounds: (usize, usize),
    /// Bounds on the initial number of items used to seed the simulation
    pub initial_n_items_bounds: (usize, usize),
    /// Bounds on the initial number of sheep added to the simulation
    pub initial_n_sheep_bounds: (usize, usize),
    /// An approximate measure of how many tags belong in a group: the
    /// number of tags over it bounds the number of groups formed at once
    pub average_tags_per_group: usize,
    /// The number of orphaned tags at which new groups are formed from them
    pub orphaned_tag_threshold: usize,
}

impl Settings {
    /// Every pair of bounds is ordered and groups hold at least one tag on
    /// average
    pub open spec fn valid(&self) -> bool {
        &&& self.n_tags_bounds.0 <= self.n_tags_bounds.1
        &&& self.n_items_bounds.0 <= self.n_items_bounds.1
        &&& self.n_item_tags_bounds.0 <= self.n_item_tags_bounds.1
        &&& self.n_sheep_tags_bounds.0 <= self.n_sheep_tags_bounds.1
        &&& self.initial_n_tags_bounds.0 <= self.initial_n_tags_bounds.1
        &&& self.initial_n_items_bounds.0 <= self.initial_n_items_bounds.1
        &&& self.initial_n_sheep_bounds.0 <= self.initial_n_sheep_bounds.1
        &&& self.average_tags_per_group > 0
    }
}

impl Default for Settings {
    fn default() -> (r: Self)
        ensures
            r.valid(),
            r.n_tags_bounds == (0usize, 1usize),
            r.n_items_bounds == (0usize, 50usize),
            r.n_item_tags_bounds == (5usize, 7usize),
            r.n_sheep_tags_bounds == (5usize, 25usize),
            r.initial_n_tags_bounds == (20usize, 30usize),
            r.initial_n_items_bounds == (40usize, 60usize),
            r.initial_n_sheep_bounds == (20usize, 40usize),
            r.average_tags_per_group == 5,
            r.orphaned_tag_threshold == 50,
    {
        Settings {
            n_tags_bounds: (0, 1),
            n_items_bounds: (0, 50),
            n_item_tags_bounds: (5, 7),
            n_sheep_tags_bounds: (5, 25),
            initial_n_tags_bounds: (20, 30),
            initial_n_items_bounds: (40, 60),
            initial_n_sheep_bounds: (20, 40),
            average_tags_per_group: 5,
            orphaned_tag_threshold: 50,
        }
    }
}

/// The tags and items introduced at the beginning of an epoch
#[derive(Clone, PartialEq, Eq, Debug)]
pub struct Epoch {
    /// Tags introduced at the beginning of this epoch
    pub tags: Vec<TagId>,
    /// Items introduced at the beginning of this epoch
    pub items: Vec<ItemId>,
}

/// The ways a call on the simulation can fail
#[derive(Copy, Clone, PartialEq, Eq, Debug, Structural)]
pub enum SimulationError {
    /// A Poisson rate was out of its domain
    NumericDomain,
    /// The simulation would outgrow the indices of this machine
    Capacity,
    /// The graph holds more edges than path measures can sum
    GraphTooLarge,
    /// A shepherd or a sheep that the simulation does not hold was named
    UnknownParticipant,
}

/// The union of the items of a sequence of feeds
pub open spec fn union_of(feeds: Seq<Seq<usize>>) -> Set<usize>
    decreases feeds.len(),
{
    if feeds.len() == 0 {
        Set::empty()
    } else {
        union_of(feeds.drop_last()).union(feeds.last().to_set())
    }
}

/// Whether the indices of `s` strictly increase
pub open spec fn increasing(s: Seq<usize>) -> bool {
    forall|i: int, j: int| 0 <= i < j < s.len() ==> s[i] < s[j]
}

/// Whether groups `gs` and orphans `os` follow from the groups `g0` and
/// orphans `o0` of the previous epoch through an attachment of new tags that
/// left groups `g` and orphans `w`: each old group keeps its members first,
/// `w` keeps the old orphans first and gains at most `n_new` tags, and when
/// `w` holds at least `threshold` tags they are drained into the groups
/// appended after `g` and the orphans left over, while below it nothing more
/// changes
pub open spec fn regrouped(
    g0: Seq<Seq<usize>>,
    o0: Seq<usize>,
    n_new: nat,
    threshold: nat,
    g: Seq<Seq<usize>>,
    w: Seq<usize>,
    gs: Seq<Seq<usize>>,
    os: Seq<usize>,
) -> bool {
    &&& g.len() == g0.len()
    &&& forall|i: int| 0 <= i < g0.len() ==> (#[trigger] g[i]).len() >= g0[i].len() && g[i].take(g0[i].len() as int) == g0[i]
    &&& w.len() >= o0.len() && w.len() <= o0.len() + n_new && w.take(o0.len() as int) == o0
    &&& if w.len() >= threshold {
        &&& gs.len() >= g.len()
        &&& gs.take(g.len() as int) == g
        &&& tags_in(gs.skip(g.len() as int)).add(os.to_multiset()) == w.to_multiset()
    } else {
        gs == g && os == w
    }
}

/// Moving the orphans left by adding tags to groups keeps the tally of tags
proof fn lemma_tally(a: Multiset<usize>, b: Multiset<usize>, o: Multiset<usize>, r: Multiset<usize>, n: Multiset<usize>, t: Multiset<usize>)
    requires
        a.add(r) == b.add(n),
        b.add(o) == t,
    ensures
        a.add(o.add(r)) == t.add(n),
{
    broadcast use vstd::multiset::group_multiset_axioms;

    assert forall|v: usize| #[trigger] a.add(o.add(r)).count(v) == t.add(n).count(v) by {
        assert(a.add(r).count(v) == b.add(n).count(v));
        assert(b.add(o).count(v) == t.count(v));
        assert(a.add(r).count(v) == a.count(v) + r.count(v));
        assert(b.add(n).count(v) == b.count(v) + n.count(v));
        assert(b.add(o).count(v) == b.count(v) + o.count(v));
        assert(o.add(r).count(v) == o.count(v) + r.count(v));
        assert(a.add(o.add(r)).count(v) == a.count(v) + o.add(r).count(v));
        assert(t.add(n).count(v) == t.count(v) + n.count(v));
    }
    assert(a.add(o.add(r)) =~= t.add(n));
}

/// Whether `s` holds the index `x`
fn holds(s: &Vec<ItemId>, x: usize) -> (r: bool)
    ensures
        r == ids(s@).contains(x),
{
    for i in 0..s.len()
        invariant
            forall|j: int| 0 <= j < i ==> ids(s@)[j] != x,
    {
        if s[i].0 == x {
            assert(ids(s@)[i as int] == x);
            return true;
        }
    }
    false
}

/// Adds to `seen` the items of `feed` that it does not hold yet
fn record_feed(seen: &mut Vec<ItemId>, feed: &Vec<ItemId>)
    ensures
        ids(final(seen)@).to_set() == ids(old(seen)@).to_set().union(ids(feed@).to_set()),
{
    broadcast use vstd::seq_lib::lemma_seq_contains_after_push;

    let ghost start = ids(seen@);
    let ghost f = ids(feed@);
    assert(f.take(0) =~= Seq::<usize>::empty());
    let mut i: usize = 0;
    while i < feed.len()
        invariant
            i <= feed@.len(),
            f == ids(feed@),
            forall|a: usize| ids(seen@).contains(a) <==> (start.contains(a) || f.take(i as int).contains(a)),
        decreases feed@.len() - i,
    {
        let x = feed[i].0;
        let ghost before = ids(seen@);
        assert(forall|a: usize| before.contains(a) <==> (start.contains(a) || f.take(i as int).contains(a)));
        assert(f.take(i + 1) =~= f.take(i as int).push(x));
        let present = holds(seen, x);
        if !present {
            let ghost vb = seen@;
            seen.push(GraphId::new(x));
            assert(ids(seen@) =~= ids(vb).push(x));
        }
        let ghost j = i as int;
        i = i + 1;
        assert forall|a: usize| ids(seen@).contains(a) <==> (start.contains(a) || f.take(i as int).contains(a)) by {
            vstd::seq_lib::lemma_seq_contains_after_push(f.take(j), x, a);
            vstd::seq_lib::lemma_seq_contains_after_push(before, x, a);
            assert(f.take(i as int) == f.take(j).push(x));
            if present {
                assert(ids(seen@) == before);
                assert(before.contains(a) <==> (start.contains(a) || f.take(j).contains(a)));
            } else {
                assert(ids(seen@) == before.push(x));
                assert(before.contains(a) <==> (start.contains(a) || f.take(j).contains(a)));
            }
        }
    }
    assert(f.take(feed@.len() as int) =~= f);
    assert forall|a: usize| ids(seen@).to_set().contains(a) <==> start.to_set().union(f.to_set()).contains(a) by {
    }
    assert(ids(seen@).to_set() =~= start.to_set().union(ids(feed@).to_set()));
}

/// The kinds of the events of an epoch's exchange with a shepherd
#[derive(Copy, Clone, PartialEq, Eq, Debug, Structural)]
pub enum Sent {
    /// The start of the epoch
    Begin,
    /// The introduction of the sheep with this index
    Intro(usize),
    /// The request for a feed for the sheep with this index
    Request(usize),
    /// The responses of the sheep with this index
    Reply(usize),
}

/// The kind of the event at position `j` of an epoch's exchange with
/// `sheep`: the start, one introduction per sheep, then for each sheep a
/// request followed by the responses
pub open spec fn expected(j: int, sheep: Seq<usize>) -> Sent {
    let n = sheep.len() as int;
    if j == 0 {
        Sent::Begin
    } else if j <= n {
        Sent::Intro(sheep[j - 1])
    } else if (j - n - 1) % 2 == 0 {
        Sent::Request(sheep[(j - n - 1) / 2])
    } else {
        Sent::Reply(sheep[(j - n - 1) / 2])
    }
}

/// The kind of an event
pub open spec fn kind_of(e: SimulationEvent) -> Sent {
    match e {
        SimulationEvent::BeginEpoch { .. } => Sent::Begin,
        SimulationEvent::SheepIntroduction { sheep, .. } => Sent::Intro(sheep.0),
        SimulationEvent::FeedRequest { sheep } => Sent::Request(sheep.0),
        SimulationEvent::Responses { sheep, .. } => Sent::Reply(sheep.0),
    }
}

/// What comes next in an epoch's exchange with a shepherd
pub enum Step {
    /// An event to send to the shepherd
    Send(SimulationEvent),
    /// A feed to read from the shepherd, for this sheep
    AwaitFeed(SheepId),
    /// The exchange is over
    Done,
}

/// The progress of an epoch's exchange with one shepherd
pub struct Exchange {
    shepherd: usize,
    position: usize,
    with_feeds: bool,
    sent: Ghost<Seq<Sent>>,
}

impl Exchange {
    /// The kinds of the events sent so far, in order
    pub closed spec fn sent_view(&self) -> Seq<Sent> {
        self.sent@
    }

    /// The shepherd of this exchange
    pub closed spec fn shepherd_view(&self) -> nat {
        self.shepherd as nat
    }

    /// Whether this exchange runs on to feeds and responses
    pub closed spec fn with_feeds_view(&self) -> bool {
        self.with_feeds
    }
}

/// A prefix of a prefix is a prefix
proof fn lemma_take_chain<A>(a: Seq<A>, b: Seq<A>, c: Seq<A>)
    requires
        a.len() <= b.len() <= c.len(),
        b.take(a.len() as int) == a,
        c.take(b.len() as int) == b,
    ensures
        c.take(a.len() as int) == a,
{
    assert forall|j: int| 0 <= j < a.len() implies c[j] == a[j] by {
        assert(c[j] == c.take(b.len() as int)[j]);
        assert(b[j] == b.take(a.len() as int)[j]);
    }
    assert(c.take(a.len() as int) =~= a);
}

/// The tags of two runs of groups are the tags of each
proof fn lemma_tags_in_concat(a: Seq<Seq<usize>>, b: Seq<Seq<usize>>)
    ensures
        tags_in(a + b) == tags_in(a).add(tags_in(b)),
    decreases b.len(),
{
    if b.len() == 0 {
        assert(a + b =~= a);
        assert(tags_in(a + b) =~= tags_in(a).add(tags_in(b)));
    } else {
        lemma_tags_in_concat(a, b.drop_last());
        assert((a + b).drop_last() =~= a + b.drop_last());
        assert((a + b).last() == b.last());
        assert(tags_in(a + b) =~= tags_in(a).add(tags_in(b)));
    }
}

/// Whether the nodes named by `tags`, `sheep` and `items` have those kinds
pub open spec fn kinds_ok(nodes: Seq<NodeType>, tags: Seq<usize>, sheep: Seq<usize>, items: Seq<usize>) -> bool {
    &&& forall|i: int| 0 <= i < tags.len() ==> nodes[#[trigger] tags[i] as int] == NodeType::Tag
    &&& forall|i: int| 0 <= i < sheep.len() ==> nodes[#[trigger] sheep[i] as int] == NodeType::Sheep
    &&& forall|i: int| 0 <= i < items.len() ==> nodes[#[trigger] items[i] as int] == NodeType::Item
}

/// Whether at least one end of an edge is among `tags`
pub open spec fn tag_end(tags: Seq<usize>, e: (usize, usize, u32)) -> bool {
    tags.contains(e.0) || tags.contains(e.1)
}

/// A member of a group is counted among the tags of the groups
proof fn lemma_member_counted(gs: Seq<Seq<usize>>, i: int, x: usize)
    requires
        0 <= i < gs.len(),
        gs[i].contains(x),
    ensures
        tags_in(gs).count(x) > 0,
    decreases gs.len(),
{
    broadcast use vstd::multiset::group_multiset_axioms;

    if i == gs.len() - 1 {
        vstd::seq_lib::to_multiset_contains(gs[i], x);
        assert(tags_in(gs).count(x) == tags_in(gs.drop_last()).count(x) + gs.last().to_multiset().count(x));
    } else {
        assert(gs.drop_last()[i] == gs[i]);
        lemma_member_counted(gs.drop_last(), i, x);
        assert(tags_in(gs).count(x) == tags_in(gs.drop_last()).count(x) + gs.last().to_multiset().count(x));
    }
}

/// Under the partition of the tags into groups and orphans, every member of
/// a group is a tag
proof fn lemma_member_is_tag(gs: Seq<Seq<usize>>, orphans: Seq<usize>, tags: Seq<usize>, i: int, x: usize)
    requires
        tags_in(gs).add(orphans.to_multiset()) == tags.to_multiset(),
        0 <= i < gs.len(),
        gs[i].contains(x),
    ensures
        tags.contains(x),
{
    broadcast use vstd::multiset::group_multiset_axioms;

    lemma_member_counted(gs, i, x);
    assert(tags_in(gs).add(orphans.to_multiset()).count(x) > 0);
    vstd::seq_lib::to_multiset_contains(tags, x);
}

/// Whether `x` is a member of one of the groups `gs`
pub open spec fn in_groups(gs: Seq<Seq<usize>>, x: usize) -> bool {
    exists|i: int| 0 <= i < gs.len() && #[trigger] gs[i].contains(x)
}

/// Both ends of an edge between tags of the groups `g` are members of groups
/// that extend `g`
proof fn lemma_tag_edge_in_groups(g: Seq<Seq<usize>>, gs: Seq<Seq<usize>>, e: (usize, usize, u32))
    requires
        gs.len() >= g.len(),
        gs.take(g.len() as int) == g,
        tag_edge(g, e),
    ensures
        in_groups(gs, e.0),
        in_groups(gs, e.1),
{
    if 5 <= e.2 <= 10 && exists|i: int| 0 <= i < g.len() && #[trigger] g[i].contains(e.0) && g[i].contains(e.1) {
        let i = choose|i: int| 0 <= i < g.len() && #[trigger] g[i].contains(e.0) && g[i].contains(e.1);
        assert(gs[i] == gs.take(g.len() as int)[i]);
    } else {
        let (i, j) = choose|i: int, j: int|
            0 <= i < g.len() && 0 <= j < g.len() && i != j && #[trigger] g[i].contains(e.0) && #[trigger] g[j].contains(e.1);
        assert(gs[i] == gs.take(g.len() as int)[i]);
        assert(gs[j] == gs.take(g.len() as int)[j]);
    }
}

/// Whether a seeded graph numbers its tags first, then its sheep, then its
/// items, and each edge joins two tags, leads from a sheep to a tag, or leads
/// from a tag to an item: no edge joins a sheep and an item
pub open spec fn seeded_layout(tags: Seq<usize>, sheep: Seq<usize>, items: Seq<usize>, edges: Seq<(usize, usize, u32)>) -> bool {
    let nt = tags.len();
    let ns = sheep.len();
    &&& forall|i: int| 0 <= i < tags.len() ==> #[trigger] tags[i] == i
    &&& forall|i: int| 0 <= i < sheep.len() ==> #[trigger] sheep[i] == nt + i
    &&& forall|i: int| 0 <= i < items.len() ==> #[trigger] items[i] == nt + ns + i
    &&& forall|k: int| 0 <= k < edges.len() ==> {
        let e = #[trigger] edges[k];
        ||| e.0 < nt && e.1 < nt
        ||| nt <= e.0 < nt + ns && e.1 < nt
        ||| e.0 < nt && nt + ns <= e.1 < nt + ns + items.len()
    }
}

/// Whether the largest initial population fits the indices of this machine
pub open spec fn fits_initially(settings: Settings) -> bool {
    settings.initial_n_tags_bounds.1 + settings.initial_n_sheep_bounds.1 + settings.initial_n_items_bounds.1 + 5
        <= usize::MAX
}

/// Empty records of what each of `n_shepherds` shepherds has shown each of
/// `n_sheep` sheep
fn fresh_seen(n_shepherds: usize, n_sheep: usize) -> (r: Vec<Vec<Vec<ItemId>>>)
    ensures
        r@.len() == n_shepherds,
        forall|k: int| 0 <= k < n_shepherds ==> (#[trigger] r@[k])@.len() == n_sheep,
        forall|k: int, s: int| 0 <= k < n_shepherds && 0 <= s < n_sheep ==> (#[trigger] r@[k]@[s])@.len() == 0,
{
    let mut r: Vec<Vec<Vec<ItemId>>> = Vec::new();
    for k in 0..n_shepherds
        invariant
            r@.len() == k,
            forall|q: int| 0 <= q < k ==> (#[trigger] r@[q])@.len() == n_sheep,
            forall|q: int, s: int| 0 <= q < k && 0 <= s < n_sheep ==> (#[trigger] r@[q]@[s])@.len() == 0,
    {
        let mut row: Vec<Vec<ItemId>> = Vec::new();
        for s in 0..n_sheep
            invariant
                row@.len() == s,
                forall|q: int| 0 <= q < s ==> (#[trigger] row@[q])@.len() == 0,
        {
            row.push(Vec::new());
        }
        r.push(row);
    }
    r
}

/// The parts of a simulation that has ended
pub struct SimulationParts {
    /// The last epoch run by the simulation
    pub final_epoch: EpochId,
    /// The graph of the simulation
    pub graph: SimulationGraph,
    /// The settings of the simulation
    pub settings: Settings,
    /// The tags present in the simulation
    pub tags: Vec<TagId>,
    /// The sheep present in the simulation
    pub sheep: Vec<SheepId>,
    /// The items present in the simulation
    pub items: Vec<ItemId>,
    /// The tag groups present in the simulation
    pub tag_groups: Vec<Vec<TagId>>,
    /// The orphaned tags present in the simulation
    pub tag_orphans: Vec<TagId>,
    /// The identifiers of the shepherds of the simulation
    pub shepherd_ids: Vec<ShepherdId>,
}

/// The state of a simulation: the graph, its population, its tag groups and
/// orphans, and for each shepherd the items it has shown each sheep
pub struct Simulation {
    current_epoch: EpochId,
    graph: SimulationGraph,
    settings: Settings,
    tags: Vec<TagId>,
    sheep: Vec<SheepId>,
    items: Vec<ItemId>,
    tag_groups: Vec<Vec<TagId>>,
    tag_orphans: Vec<TagId>,
    epoch: Epoch,
    seen: Vec<Vec<Vec<ItemId>>>,
    feeds: Ghost<Seq<Seq<Seq<Seq<usize>>>>>,
}

impl Simulation {
    /// The number of the current epoch
    pub closed spec fn epoch_id(&self) -> nat {
        self.current_epoch.0 as nat
    }

    /// The graph
    pub closed spec fn graph_view(&self) -> SimulationGraph {
        self.graph
    }

    /// The settings
    pub closed spec fn settings_view(&self) -> Settings {
        self.settings
    }

    /// The tags, in order of creation
    pub closed spec fn tag_ids(&self) -> Seq<usize> {
        ids(self.tags@)
    }

    /// The sheep, in order of creation
    pub closed spec fn sheep_ids(&self) -> Seq<usize> {
        ids(self.sheep@)
    }

    /// The items, in order of creation
    pub closed spec fn item_ids(&self) -> Seq<usize> {
        ids(self.items@)
    }

    /// The tag groups
    pub closed spec fn groups_view(&self) -> Seq<Seq<usize>> {
        group_ids(self.tag_groups@)
    }

    /// The orphaned tags
    pub closed spec fn orphan_ids(&self) -> Seq<usize> {
        ids(self.tag_orphans@)
    }

    /// The tags introduced by the current epoch
    pub closed spec fn introduced_tags(&self) -> Seq<usize> {
        ids(self.epoch.tags@)
    }

    /// The items introduced by the current epoch
    pub closed spec fn introduced_items(&self) -> Seq<usize> {
        ids(self.epoch.items@)
    }

    /// The number of shepherds
    pub closed spec fn shepherd_count(&self) -> nat {
        self.seen@.len()
    }

    /// The items that shepherd `k` has shown the sheep at position `s`
    pub closed spec fn seen_view(&self, k: int, s: int) -> Set<usize> {
        ids(self.seen@[k]@[s]@).to_set()
    }

    /// The feeds that shepherd `k` has built for the sheep at position `s`
    pub closed spec fn feeds_view(&self, k: int, s: int) -> Seq<Seq<usize>> {
        self.feeds@[k][s]
    }

    /// Seeds a simulation for `n_shepherds` shepherds: draws the initial
    /// tags and groups them, then the sheep and the items, each wired to
    /// tags drawn from all of them; sheep lead to their tags, and tags lead
    /// to their items. This is epoch 0, which introduces every tag and item.
    #[verifier::rlimit(100)]
    #[verifier::spinoff_prover]
    pub fn new(rng: &mut StdRng, n_shepherds: usize, settings: Settings) -> (r: Result<Simulation, SimulationError>)
        requires
            settings.valid(),
        ensures
            r is Err <==> !fits_initially(settings),
            r is Err ==> r->Err_0 == SimulationError::Capacity,
            r is Ok ==> {
                let sim = r->Ok_0;
                &&& sim.wf()
                &&& sim.epoch_id() == 0
                &&& sim.settings_view() == settings
                &&& sim.shepherd_count() == n_shepherds
                &&& settings.initial_n_tags_bounds.0 <= sim.tag_ids().len() <= settings.initial_n_tags_bounds.1
                &&& settings.initial_n_sheep_bounds.0 <= sim.sheep_ids().len() <= settings.initial_n_sheep_bounds.1
                &&& settings.initial_n_items_bounds.0 <= sim.item_ids().len() <= settings.initial_n_items_bounds.1
                &&& sim.graph_view().nodes().len() == sim.tag_ids().len() + sim.sheep_ids().len() + sim.item_ids().len()
                &&& sim.introduced_tags() == sim.tag_ids()
                &&& sim.introduced_items() == sim.item_ids()
                &&& seeded_layout(sim.tag_ids(), sim.sheep_ids(), sim.item_ids(), sim.graph_view().edges())
                &&& exists|runs: Seq<int>|
                    #[trigger] wired_runs(
                        sim.graph_view().edges(),
                        runs,
                        sim.sheep_ids(),
                        min(settings.n_sheep_tags_bounds.0 as int, sim.tag_ids().len() as int),
                        min(settings.n_sheep_tags_bounds.1 as int, sim.tag_ids().len() as int),
                        false,
                        true,
                    )
                &&& exists|runs: Seq<int>|
                    #[trigger] wired_runs(
                        sim.graph_view().edges(),
                        runs,
                        sim.item_ids(),
                        min(settings.n_item_tags_bounds.0 as int, sim.tag_ids().len() as int),
                        min(settings.n_item_tags_bounds.1 as int, sim.tag_ids().len() as int),
                        true,
                        true,
                    )
                &&& forall|k: int, s: int|
                    0 <= k < n_shepherds && 0 <= s < sim.sheep_ids().len() ==> #[trigger] sim.seen_view(k, s) == Set::<usize>::empty()
                &&& forall|k: int, s: int|
                    0 <= k < n_shepherds && 0 <= s < sim.sheep_ids().len() ==> #[trigger] sim.feeds_view(k, s) == Seq::<Seq<usize>>::empty()
            },
    {
        if settings.initial_n_tags_bounds.1 > usize::MAX - 5
            || settings.initial_n_sheep_bounds.1 > usize::MAX - 5 - settings.initial_n_tags_bounds.1
            || settings.initial_n_items_bounds.1 > usize::MAX - 5 - settings.initial_n_tags_bounds.1 - settings.initial_n_sheep_bounds.1 {
            return Err(SimulationError::Capacity);
        }
        let mut graph = SimulationGraph::new();
        let n_tags = uniform_in(rng, settings.initial_n_tags_bounds.0, settings.initial_n_tags_bounds.1);
        let tags: Vec<TagId> = graph.create_nodes(n_tags);
        let mut tag_groups: Vec<Vec<TagId>> = Vec::new();
        let mut tag_orphans: Vec<TagId> = Vec::new();
        proof {
            assert forall|i: int| 0 <= i < tags@.len() implies #[trigger] ids(tags@)[i] < graph.nodes().len() by {
                assert(ids(tags@)[i] == tags@[i].0);
            }
        }
        match graph.add_new_tag_groups(rng, &mut tag_groups, &mut tag_orphans, n_tags / settings.average_tags_per_group, &tags) {
            Ok(()) => {},
            Err(_) => {
                return Err(SimulationError::NumericDomain);
            },
        }
        let ghost grouped = graph.edges();
        let n_sheep = uniform_in(rng, settings.initial_n_sheep_bounds.0, settings.initial_n_sheep_bounds.1);
        let sheep: Vec<SheepId> = graph.create_nodes(n_sheep);
        graph.connect_extremities(rng, &sheep, &tags, settings.n_sheep_tags_bounds, false);
        let ghost wired = graph.edges();
        proof {
            assert forall|i: int, j: int| 0 <= i < ids(tags@).len() && 0 <= j < ids(tags@).len() && i != j implies ids(tags@)[i] != ids(tags@)[j] by {
                assert(ids(tags@)[i] == tags@[i].0);
                assert(ids(tags@)[j] == tags@[j].0);
            }
        }
        let ghost sheep_runs = choose|runs: Seq<int>|
            #[trigger] wired_runs(
                wired,
                runs,
                ids(sheep@),
                min(settings.n_sheep_tags_bounds.0 as int, tags@.len() as int),
                min(settings.n_sheep_tags_bounds.1 as int, tags@.len() as int),
                false,
                ids(tags@).no_duplicates(),
            ) && runs[0] == grouped.len() && runs.last() == wired.len();
        let n_items = uniform_in(rng, settings.initial_n_items_bounds.0, settings.initial_n_items_bounds.1);
        let items: Vec<ItemId> = graph.create_nodes(n_items);
        graph.connect_extremities(rng, &items, &tags, settings.n_item_tags_bounds, true);
        proof {
            let nt = tags@.len();
            let ns = sheep@.len();
            assert(tag_groups@.skip(0) =~= tag_groups@);
            assert forall|i: int| 0 <= i < ids(tags@).len() implies #[trigger] ids(tags@)[i] == i by {
                assert(ids(tags@)[i] == tags@[i].0);
            }
            assert forall|i: int| 0 <= i < ids(sheep@).len() implies #[trigger] ids(sheep@)[i] == nt + i by {
                assert(ids(sheep@)[i] == sheep@[i].0);
            }
            assert forall|i: int| 0 <= i < ids(items@).len() implies #[trigger] ids(items@)[i] == nt + ns + i by {
                assert(ids(items@)[i] == items@[i].0);
            }
            assert forall|k: int| 0 <= k < graph.edges().len() implies {
                let e = #[trigger] graph.edges()[k];
                ||| e.0 < nt && e.1 < nt
                ||| nt <= e.0 < nt + ns && e.1 < nt
                ||| e.0 < nt && nt + ns <= e.1 < nt + ns + items@.len()
            } by {
                let e = graph.edges()[k];
                if k < grouped.len() {
                    assert(e == grouped[k]) by {
                        assert(graph.edges()[k] == graph.edges().take(wired.len() as int)[k]);
                        assert(wired[k] == wired.take(grouped.len() as int)[k]);
                    }
                    assert(grouped[k] == grouped.take(grouped.len() as int)[k]);
                    assert(tag_edge(group_ids(tag_groups@), e));
                    if 5 <= e.2 <= 10 && exists|i: int| 0 <= i < group_ids(tag_groups@).len() && #[trigger] group_ids(tag_groups@)[i].contains(e.0) && group_ids(tag_groups@)[i].contains(e.1) {
                        let i = choose|i: int| 0 <= i < group_ids(tag_groups@).len() && #[trigger] group_ids(tag_groups@)[i].contains(e.0) && group_ids(tag_groups@)[i].contains(e.1);
                        assert(all_below(group_ids(tag_groups@)[i], nt));
                    } else {
                        let (i, j) = choose|i: int, j: int| 0 <= i < group_ids(tag_groups@).len() && 0 <= j < group_ids(tag_groups@).len() && i != j && #[trigger] group_ids(tag_groups@)[i].contains(e.0) && #[trigger] group_ids(tag_groups@)[j].contains(e.1);
                        assert(all_below(group_ids(tag_groups@)[i], nt));
                        assert(all_below(group_ids(tag_groups@)[j], nt));
                    }
                } else if k < wired.len() {
                    assert(e == wired[k]) by {
                        assert(graph.edges()[k] == graph.edges().take(wired.len() as int)[k]);
                    }
                    assert(ids(sheep@).contains(e.0) && ids(tags@).contains(e.1));
                } else {
                    assert(ids(items@).contains(e.1) && ids(tags@).contains(e.0));
                }
            }
        }
        proof {
            assert(tag_groups@.skip(0) =~= tag_groups@);
            assert forall|i: int| 0 <= i < tag_groups@.len() implies linked_within(graph.edges(), #[trigger] group_ids(tag_groups@)[i]) by {
                lemma_linked_within_grows(grouped, wired, group_ids(tag_groups@)[i]);
                lemma_linked_within_grows(wired, graph.edges(), group_ids(tag_groups@)[i]);
            }
        }
        proof {
            let nt = tags@.len();
            let ns = sheep@.len();
            let t = ids(tags@);
            assert forall|i: int| 0 <= i < t.len() implies graph.nodes()[#[trigger] t[i] as int] == NodeType::Tag by {
                assert(t[i] == i);
            }
            assert forall|i: int| 0 <= i < ids(sheep@).len() implies graph.nodes()[#[trigger] ids(sheep@)[i] as int] == NodeType::Sheep by {
                assert(ids(sheep@)[i] == nt + i);
            }
            assert forall|i: int| 0 <= i < ids(items@).len() implies graph.nodes()[#[trigger] ids(items@)[i] as int] == NodeType::Item by {
                assert(ids(items@)[i] == nt + ns + i);
            }
            assert forall|k: int| 0 <= k < graph.edges().len() implies tag_end(t, #[trigger] graph.edges()[k]) by {
                let e = graph.edges()[k];
                if e.0 < nt {
                    assert(t[e.0 as int] == e.0);
                } else {
                    assert(t[e.1 as int] == e.1);
                }
            }
        }
        proof {
            let lo = min(settings.n_sheep_tags_bounds.0 as int, tags@.len() as int);
            let hi = min(settings.n_sheep_tags_bounds.1 as int, tags@.len() as int);
            assert forall|j: int| 0 <= j < ids(sheep@).len() implies wired_run(graph.edges(), #[trigger] sheep_runs[j], sheep_runs[j + 1], ids(sheep@)[j], lo, hi, false, true) by {
                lemma_wired_run_grows(wired, graph.edges(), sheep_runs[j], sheep_runs[j + 1], ids(sheep@)[j], lo, hi, false, true);
            }
            assert(wired_runs(graph.edges(), sheep_runs, ids(sheep@), lo, hi, false, true));
        }
        let epoch = Epoch { tags: from_ids(&crate::ids::to_ids(&tags)), items: from_ids(&crate::ids::to_ids(&items)) };
        let seen = fresh_seen(n_shepherds, n_sheep);
        let ghost feeds = Seq::new(n_shepherds as nat, |k: int| Seq::new(n_sheep as nat, |s: int| Seq::<Seq<usize>>::empty()));
        let sim = Simulation {
            current_epoch: EpochId(0),
            graph,
            settings,
            tags,
            sheep,
            items,
            tag_groups,
            tag_orphans,
            epoch,
            seen,
            feeds: Ghost(feeds),
        };
        proof {
            let nt = ids(tags@).len() as int;
            let item_runs = choose|runs: Seq<int>|
                #[trigger] wired_runs(
                    sim.graph.edges(),
                    runs,
                    ids(sim.items@),
                    min(settings.n_item_tags_bounds.0 as int, nt),
                    min(settings.n_item_tags_bounds.1 as int, nt),
                    true,
                    ids(tags@).no_duplicates(),
                ) && runs[0] == wired.len() && runs.last() == sim.graph.edges().len();
            assert(wired_runs(sim.graph.edges(), item_runs, ids(sim.items@), min(settings.n_item_tags_bounds.0 as int, nt),
                min(settings.n_item_tags_bounds.1 as int, nt), true, true));
            assert(wired_runs(sim.graph.edges(), sheep_runs, ids(sim.sheep@), min(settings.n_sheep_tags_bounds.0 as int, nt),
                min(settings.n_sheep_tags_bounds.1 as int, nt), false, true));
        }
        proof {
            assert(tag_groups@.skip(0) =~= tag_groups@);
            assert(tag_orphans@.skip(0) =~= tag_orphans@);
            vstd::multiset::lemma_multiset_empty_len(Seq::<usize>::empty().to_multiset());
            assert(group_ids(Seq::<Vec<TagId>>::empty().skip(0)) =~= Seq::<Seq<usize>>::empty());
            assert forall|i: int| 0 <= i < sim.tags@.len() implies #[trigger] ids(sim.tags@)[i] < sim.graph.nodes().len() by {
                assert(ids(sim.tags@)[i] == sim.tags@[i].0);
            }
            assert forall|i: int| 0 <= i < sim.sheep@.len() implies #[trigger] ids(sim.sheep@)[i] < sim.graph.nodes().len() by {
                assert(ids(sim.sheep@)[i] == sim.sheep@[i].0);
            }
            assert forall|i: int| 0 <= i < sim.items@.len() implies #[trigger] ids(sim.items@)[i] < sim.graph.nodes().len() by {
                assert(ids(sim.items@)[i] == sim.items@[i].0);
            }
            assert forall|i: int, j: int| 0 <= i < j < sim.tags@.len() implies ids(sim.tags@)[i] < ids(sim.tags@)[j] by {
                assert(ids(sim.tags@)[i] == sim.tags@[i].0);
                assert(ids(sim.tags@)[j] == sim.tags@[j].0);
            }
            assert forall|k: int, s: int| 0 <= k < n_shepherds && 0 <= s < n_sheep implies #[trigger] ids(sim.seen@[k]@[s]@).to_set() == union_of(sim.feeds@[k][s]) by {
                assert(ids(sim.seen@[k]@[s]@).to_set() =~= Set::<usize>::empty());
            }
        }
        proof {
            assert(sim.graph.wf());
            assert(sim.settings.valid());
            assert(all_below(ids(sim.tags@), sim.graph.nodes().len()));
            assert(all_below(ids(sim.sheep@), sim.graph.nodes().len()));
            assert(all_below(ids(sim.items@), sim.graph.nodes().len()));
            assert(increasing(ids(sim.tags@)));
            assert(kinds_ok(sim.graph.nodes(), ids(sim.tags@), ids(sim.sheep@), ids(sim.items@)));
            assert(tags_in(group_ids(sim.tag_groups@)).add(ids(sim.tag_orphans@).to_multiset()) == ids(sim.tags@).to_multiset());
            assert(all_below(ids(sim.tag_orphans@), sim.graph.nodes().len()));
            assert(sim.wf());
            assert(sim.graph_view() == sim.graph && sim.sheep_ids() == ids(sim.sheep@) && sim.item_ids() == ids(sim.items@)
                && sim.tag_ids() == ids(sim.tags@));
            let nt = sim.tag_ids().len() as int;
            assert(wired_runs(sim.graph_view().edges(), sheep_runs, sim.sheep_ids(), min(settings.n_sheep_tags_bounds.0 as int, nt),
                min(settings.n_sheep_tags_bounds.1 as int, nt), false, true));
            let item_runs = choose|runs: Seq<int>|
                #[trigger] wired_runs(
                    sim.graph.edges(),
                    runs,
                    ids(sim.items@),
                    min(settings.n_item_tags_bounds.0 as int, nt),
                    min(settings.n_item_tags_bounds.1 as int, nt),
                    true,
                    true,
                );
            assert(wired_runs(sim.graph_view().edges(), item_runs, sim.item_ids(), min(settings.n_item_tags_bounds.0 as int, nt),
                min(settings.n_item_tags_bounds.1 as int, nt), true, true));
        }
        Ok(sim)
    }

    /// Whether the largest epoch that the settings allow fits the indices of
    /// this machine
    pub closed spec fn has_room(&self) -> bool {
        &&& self.graph.nodes().len() + self.settings.n_tags_bounds.1 + self.settings.n_items_bounds.1 <= usize::MAX
        &&& self.tag_groups@.len() + 50 <= usize::MAX
        &&& self.tag_orphans@.len() + self.settings.n_tags_bounds.1 + 5 <= usize::MAX
        &&& self.current_epoch.0 < usize::MAX
    }

    /// Advances the world by one epoch: draws new tags and adds them to the
    /// groups, forms new groups from the orphans once there are at least
    /// `orphaned_tag_threshold` of them, and draws new items wired to the
    /// tags; the epoch then records the tags and items that it introduced
    #[verifier::rlimit(100)]
    #[verifier::spinoff_prover]
    pub fn simulate_epoch(&mut self, rng: &mut StdRng) -> (r: Result<(), SimulationError>)
        requires
            old(self).wf(),
        ensures
            r is Err <==> !old(self).has_room(),
            r is Err ==> r->Err_0 == SimulationError::Capacity && *final(self) == *old(self),
            r is Ok ==> {
                let s = *final(self);
                let o = *old(self);
                &&& s.wf()
                &&& s.epoch_id() == o.epoch_id() + 1
                &&& s.settings_view() == o.settings_view()
                &&& s.sheep_ids() == o.sheep_ids()
                &&& s.tag_ids() == o.tag_ids() + s.introduced_tags()
                &&& s.item_ids() == o.item_ids() + s.introduced_items()
                &&& o.settings_view().n_tags_bounds.0 <= s.introduced_tags().len() <= o.settings_view().n_tags_bounds.1
                &&& o.settings_view().n_items_bounds.0 <= s.introduced_items().len() <= o.settings_view().n_items_bounds.1
                &&& s.graph_view().nodes().len() == o.graph_view().nodes().len() + s.introduced_tags().len()
                    + s.introduced_items().len()
                &&& forall|i: int|
                    0 <= i < s.introduced_tags().len() ==> #[trigger] s.introduced_tags()[i] == o.graph_view().nodes().len() + i
                &&& forall|i: int|
                    0 <= i < s.introduced_items().len() ==> #[trigger] s.introduced_items()[i] == o.graph_view().nodes().len()
                        + s.introduced_tags().len() + i
                &&& s.shepherd_count() == o.shepherd_count()
                &&& forall|k: int, q: int| #[trigger] s.seen_view(k, q) == o.seen_view(k, q)
                &&& forall|k: int, q: int| #[trigger] s.feeds_view(k, q) == o.feeds_view(k, q)
                &&& s.graph_view().edges().len() >= o.graph_view().edges().len()
                &&& s.graph_view().edges().take(o.graph_view().edges().len() as int) == o.graph_view().edges()
                &&& forall|k: int|
                    o.graph_view().edges().len() <= k < s.graph_view().edges().len() ==> {
                        let e = #[trigger] s.graph_view().edges()[k];
                        ||| s.tag_ids().contains(e.0) && s.tag_ids().contains(e.1)
                        ||| s.tag_ids().contains(e.0) && s.introduced_items().contains(e.1)
                    }
                &&& exists|g: Seq<Seq<usize>>, w: Seq<usize>|
                    #[trigger] regrouped(
                        o.groups_view(),
                        o.orphan_ids(),
                        s.introduced_tags().len(),
                        o.settings_view().orphaned_tag_threshold as nat,
                        g,
                        w,
                        s.groups_view(),
                        s.orphan_ids(),
                    )
            },
    {
        if self.graph.nodes_len() > usize::MAX - self.settings.n_tags_bounds.1
            || self.graph.nodes_len() + self.settings.n_tags_bounds.1 > usize::MAX - self.settings.n_items_bounds.1
            || self.tag_groups.len() > usize::MAX - 50
            || self.settings.n_tags_bounds.1 > usize::MAX - 5
            || self.tag_orphans.len() > usize::MAX - 5 - self.settings.n_tags_bounds.1
            || self.current_epoch.0 == usize::MAX {
            return Err(SimulationError::Capacity);
        }
        let ghost n0 = self.graph.nodes().len();
        let ghost t0 = ids(self.tags@);
        let ghost g0 = group_ids(self.tag_groups@);
        let ghost o0 = ids(self.tag_orphans@);
        let n_new_tags = uniform_in(rng, self.settings.n_tags_bounds.0, self.settings.n_tags_bounds.1);
        let new_tags: Vec<TagId> = self.graph.create_nodes(n_new_tags);
        proof {
            assert forall|i: int| 0 <= i < new_tags@.len() implies #[trigger] ids(new_tags@)[i] < self.graph.nodes().len() by {
                assert(ids(new_tags@)[i] == new_tags@[i].0);
            }
            assert forall|i: int| 0 <= i < g0.len() implies all_below(#[trigger] g0[i], self.graph.nodes().len()) by {
                assert(all_below(g0[i], n0));
            }
        }
        let ghost orphans_before = self.tag_orphans@;
        let ghost e0 = self.graph.edges();
        match self.graph.add_to_tag_groups(rng, &mut self.tag_groups, &mut self.tag_orphans, &new_tags) {
            Ok(()) => {},
            Err(_) => {
                return Err(SimulationError::NumericDomain);
            },
        }
        let ghost g1 = group_ids(self.tag_groups@);
        let ghost o1 = ids(self.tag_orphans@);
        proof {
            assert forall|i: int| 0 <= i < g1.len() implies linked_within(self.graph.edges(), #[trigger] g1[i]) by {
                let joined = g1[i].skip(g0[i].len() as int);
                assert(g1[i] =~= g0[i] + joined);
                lemma_linked_within_grows(e0, self.graph.edges(), g0[i]);
                lemma_linked_within_concat(self.graph.edges(), g0[i], joined);
            }
            let rest = ids(self.tag_orphans@.skip(orphans_before.len() as int));
            assert(self.tag_orphans@ =~= orphans_before + self.tag_orphans@.skip(orphans_before.len() as int));
            assert(o1 =~= o0 + rest);
            vstd::seq_lib::lemma_multiset_commutative(o0, rest);
            vstd::seq_lib::lemma_multiset_commutative(t0, ids(new_tags@));
            assert(ids(self.tags@ + new_tags@) =~= t0 + ids(new_tags@));
            assert(tags_in(g0).add(o0.to_multiset()) == t0.to_multiset());
            assert(tags_in(g1).add(rest.to_multiset()) == tags_in(g0).add(ids(new_tags@).to_multiset()));
            assert(o1.to_multiset() == o0.to_multiset().add(rest.to_multiset()));
            lemma_tally(tags_in(g1), tags_in(g0), o0.to_multiset(), rest.to_multiset(), ids(new_tags@).to_multiset(), t0.to_multiset());
            assert forall|i: int| 0 <= i < o1.len() implies #[trigger] o1[i] < self.graph.nodes().len() by {
                if i >= o0.len() {
                    assert(o1[i] == rest[i - o0.len()]);
                }
            }
        }
        proof {
            assert(self.tag_orphans@.len() <= orphans_before.len() + new_tags@.len());
        }
        let ghost e1 = self.graph.edges();
        proof {
            assert forall|i: int| 0 <= i < g0.len() implies (#[trigger] g1[i]).len() >= g0[i].len() && g1[i].take(g0[i].len() as int) == g0[i] by {
            }
            assert(o1.take(o0.len() as int) =~= o0);
        }
        let mut added = from_ids(&crate::ids::to_ids(&new_tags));
        self.tags.append(&mut added);
        if self.tag_orphans.len() >= self.settings.orphaned_tag_threshold {
            let mut snapshot: Vec<TagId> = Vec::new();
            std::mem::swap(&mut snapshot, &mut self.tag_orphans);
            let ghost groups_before = self.tag_groups@;
            let max_groups = snapshot.len() / self.settings.average_tags_per_group;
            assert(max_groups <= snapshot.len()) by (nonlinear_arith)
                requires
                    max_groups == snapshot.len() / self.settings.average_tags_per_group,
                    self.settings.average_tags_per_group > 0,
            ;
            match self.graph.add_new_tag_groups(
                rng,
                &mut self.tag_groups,
                &mut self.tag_orphans,
                max_groups,
                &snapshot,
            ) {
                Ok(()) => {},
                Err(_) => {
                    return Err(SimulationError::NumericDomain);
                },
            }
            proof {
                let formed = group_ids(self.tag_groups@.skip(groups_before.len() as int));
                assert(self.tag_groups@ =~= groups_before + self.tag_groups@.skip(groups_before.len() as int));
                assert(group_ids(self.tag_groups@) =~= g1 + formed);
                assert(group_ids(self.tag_groups@).skip(g1.len() as int) =~= formed);
                assert forall|k: int| e1.len() <= k < self.graph.edges().len() implies in_groups(
                    group_ids(self.tag_groups@),
                    (#[trigger] self.graph.edges()[k]).0,
                ) && in_groups(group_ids(self.tag_groups@), self.graph.edges()[k].1) by {
                    let gs = group_ids(self.tag_groups@);
                    let e = self.graph.edges()[k];
                    assert(tag_edge(formed, e));
                    if 5 <= e.2 <= 10 && exists|i: int| 0 <= i < formed.len() && #[trigger] formed[i].contains(e.0) && formed[i].contains(e.1) {
                        let i = choose|i: int| 0 <= i < formed.len() && #[trigger] formed[i].contains(e.0) && formed[i].contains(e.1);
                        assert(gs[g1.len() + i] == formed[i]);
                    } else {
                        let (i, j) = choose|i: int, j: int|
                            0 <= i < formed.len() && 0 <= j < formed.len() && i != j && #[trigger] formed[i].contains(e.0)
                                && #[trigger] formed[j].contains(e.1);
                        assert(gs[g1.len() + i] == formed[i]);
                        assert(gs[g1.len() + j] == formed[j]);
                    }
                }
                assert(ids(snapshot@) == o1);
                assert(self.tag_orphans@.skip(0) =~= self.tag_orphans@);
                assert(tags_in(group_ids(self.tag_groups@).skip(g1.len() as int)).add(ids(self.tag_orphans@).to_multiset())
                    == o1.to_multiset());
                lemma_tags_in_concat(g1, formed);
                assert(self.tag_orphans@.skip(0) =~= self.tag_orphans@);
                assert(tags_in(group_ids(self.tag_groups@)).add(ids(self.tag_orphans@).to_multiset())
                    =~= tags_in(g1).add(o1.to_multiset()));
                assert forall|i: int| 0 <= i < self.tag_groups@.len() implies all_below(
                    #[trigger] group_ids(self.tag_groups@)[i],
                    self.graph.nodes().len(),
                ) by {
                    if i < groups_before.len() {
                        assert(group_ids(self.tag_groups@)[i] == g1[i]);
                    }
                }
                assert forall|i: int| 0 <= i < self.tag_groups@.len() implies linked_within(
                    self.graph.edges(),
                    #[trigger] group_ids(self.tag_groups@)[i],
                ) by {
                    if i < groups_before.len() {
                        assert(group_ids(self.tag_groups@)[i] == g1[i]);
                        lemma_linked_within_grows(e1, self.graph.edges(), g1[i]);
                    }
                }
            }
        }
        proof {
            if o1.len() >= self.settings.orphaned_tag_threshold {
                assert(group_ids(self.tag_groups@).take(g1.len() as int) =~= g1);
            } else {
                assert(self.graph.edges().take(e1.len() as int) =~= e1);
            }
            assert(regrouped(g0, o0, ids(new_tags@).len(), self.settings.orphaned_tag_threshold as nat, g1, o1,
                group_ids(self.tag_groups@), ids(self.tag_orphans@)));
        }
        let ghost e_grouped = self.graph.edges();
        let ghost g_final = group_ids(self.tag_groups@);
        let ghost o_final = ids(self.tag_orphans@);
        proof {
            assert(g_final.take(g1.len() as int) == g1) by {
                if o1.len() < self.settings.orphaned_tag_threshold {
                    assert(g_final.take(g1.len() as int) =~= g1);
                }
            }
            assert forall|k: int| e0.len() <= k < e_grouped.len() implies in_groups(g_final, (#[trigger] e_grouped[k]).0)
                && in_groups(g_final, e_grouped[k].1) by {
                if k < e1.len() {
                    assert(e_grouped[k] == e1[k]) by {
                        if o1.len() >= self.settings.orphaned_tag_threshold {
                            assert(e_grouped[k] == e_grouped.take(e1.len() as int)[k]);
                        }
                    }
                    assert(tag_edge(g1, e1[k]));
                    lemma_tag_edge_in_groups(g1, g_final, e1[k]);
                }
            }
        }
        let n_new_items = uniform_in(rng, self.settings.n_items_bounds.0, self.settings.n_items_bounds.1);
        let new_items: Vec<ItemId> = self.graph.create_nodes(n_new_items);
        proof {
            assert(ids(self.tags@) =~= t0 + ids(new_tags@));
            assert forall|i: int| 0 <= i < self.tags@.len() implies #[trigger] self.tags@[i].0 < self.graph.nodes().len() by {
                assert(ids(self.tags@)[i] == self.tags@[i].0);
                if i >= t0.len() {
                    assert(ids(self.tags@)[i] == new_tags@[i - t0.len()].0);
                } else {
                    assert(ids(self.tags@)[i] == t0[i]);
                }
            }
        }
        let ghost e2 = self.graph.edges();
        self.graph.connect_extremities(rng, &new_items, &self.tags, self.settings.n_item_tags_bounds, true);
        proof {
            assert forall|i: int| 0 <= i < self.tag_groups@.len() implies linked_within(
                self.graph.edges(),
                #[trigger] group_ids(self.tag_groups@)[i],
            ) by {
                lemma_linked_within_grows(e2, self.graph.edges(), group_ids(self.tag_groups@)[i]);
            }
        }
        proof {
            lemma_take_chain(e0, e1, e_grouped);
            lemma_take_chain(e0, e_grouped, self.graph.edges());
        }
        let mut added_items = from_ids(&crate::ids::to_ids(&new_items));
        self.items.append(&mut added_items);
        self.current_epoch = EpochId(self.current_epoch.0 + 1);
        self.epoch = Epoch { tags: new_tags, items: new_items };
        proof {
            assert(ids(self.tags@) =~= t0 + ids(self.epoch.tags@));
            assert(ids(self.items@) =~= ids(old(self).items@) + ids(self.epoch.items@));
            assert forall|i: int| 0 <= i < self.tags@.len() implies #[trigger] ids(self.tags@)[i] < self.graph.nodes().len() by {
                if i >= t0.len() {
                    assert(ids(self.tags@)[i] == self.epoch.tags@[i - t0.len()].0);
                }
            }
            assert forall|i: int| 0 <= i < self.items@.len() implies #[trigger] ids(self.items@)[i] < self.graph.nodes().len() by {
                if i >= old(self).items@.len() {
                    assert(ids(self.items@)[i] == self.epoch.items@[i - old(self).items@.len()].0);
                }
            }
            assert forall|i: int, j: int| 0 <= i < j < self.tags@.len() implies ids(self.tags@)[i] < ids(self.tags@)[j] by {
                if j >= t0.len() {
                    assert(ids(self.tags@)[j] == self.epoch.tags@[j - t0.len()].0);
                    if i >= t0.len() {
                        assert(ids(self.tags@)[i] == self.epoch.tags@[i - t0.len()].0);
                    }
                }
            }
            assert forall|i: int| 0 <= i < self.epoch.tags@.len() implies #[trigger] ids(self.epoch.tags@)[i] == n0 + i by {
                assert(ids(self.epoch.tags@)[i] == self.epoch.tags@[i].0);
            }
            assert forall|i: int| 0 <= i < self.epoch.items@.len() implies #[trigger] ids(self.epoch.items@)[i] == n0 + self.epoch.tags@.len() + i by {
                assert(ids(self.epoch.items@)[i] == self.epoch.items@[i].0);
            }
            assert(g_final == group_ids(self.tag_groups@));
            assert(o_final == ids(self.tag_orphans@));
            assert(regrouped(old(self).groups_view(), old(self).orphan_ids(), self.introduced_tags().len(),
                old(self).settings_view().orphaned_tag_threshold as nat, g1, o1, self.groups_view(), self.orphan_ids()));
            assert(self.graph.wf());
            assert(self.settings.valid());
            assert(all_below(ids(self.tags@), self.graph.nodes().len()));
            assert(all_below(ids(self.sheep@), self.graph.nodes().len()));
            assert(all_below(ids(self.items@), self.graph.nodes().len()));
            assert(increasing(ids(self.tags@)));
            assert(tags_in(group_ids(self.tag_groups@)).add(ids(self.tag_orphans@).to_multiset()) == ids(self.tags@).to_multiset());
            assert(all_below(ids(self.tag_orphans@), self.graph.nodes().len()));
            assert(self.feeds@.len() == self.seen@.len());
            let tf = ids(self.tags@);
            assert forall|x: usize| in_groups(g_final, x) implies tf.contains(x) by {
                let i = choose|i: int| 0 <= i < g_final.len() && #[trigger] g_final[i].contains(x);
                lemma_member_is_tag(g_final, o_final, tf, i, x);
            }
            assert forall|x: usize| t0.contains(x) implies tf.contains(x) by {
                let i = choose|i: int| 0 <= i < t0.len() && t0[i] == x;
                assert(tf[i] == x);
            }
            assert forall|k: int| 0 <= k < self.graph.edges().len() implies tag_end(tf, #[trigger] self.graph.edges()[k]) by {
                let e = self.graph.edges()[k];
                if k < e_grouped.len() {
                    assert(e == e_grouped[k]) by {
                        assert(self.graph.edges()[k] == self.graph.edges().take(e_grouped.len() as int)[k]);
                    }
                    if k < e0.len() {
                        assert(e == e0[k]) by {
                            assert(e_grouped[k] == e_grouped.take(e0.len() as int)[k]);
                        }
                        assert(tag_end(t0, old(self).graph.edges()[k]));
                    }
                }
            }
            assert forall|k: int| e0.len() <= k < self.graph.edges().len() implies {
                let e = #[trigger] self.graph.edges()[k];
                ||| tf.contains(e.0) && tf.contains(e.1)
                ||| tf.contains(e.0) && ids(self.epoch.items@).contains(e.1)
            } by {
                let e = self.graph.edges()[k];
                if k < e_grouped.len() {
                    assert(e == e_grouped[k]) by {
                        assert(self.graph.edges()[k] == self.graph.edges().take(e_grouped.len() as int)[k]);
                    }
                    assert(in_groups(g_final, e.0) && in_groups(g_final, e.1));
                }
            }
            let n_t = self.epoch.tags@.len();
            assert forall|i: int| 0 <= i < tf.len() implies self.graph.nodes()[#[trigger] tf[i] as int] == NodeType::Tag by {
                if i < t0.len() {
                    assert(tf[i] == t0[i]);
                    assert(old(self).graph.nodes()[t0[i] as int] == NodeType::Tag);
                } else {
                    assert(tf[i] == n0 + (i - t0.len()));
                }
            }
            assert forall|i: int| 0 <= i < ids(self.sheep@).len() implies self.graph.nodes()[#[trigger] ids(self.sheep@)[i] as int] == NodeType::Sheep by {
                assert(old(self).graph.nodes()[ids(self.sheep@)[i] as int] == NodeType::Sheep);
            }
            assert forall|i: int| 0 <= i < ids(self.items@).len() implies self.graph.nodes()[#[trigger] ids(self.items@)[i] as int] == NodeType::Item by {
                if i < old(self).items@.len() {
                    assert(ids(self.items@)[i] == ids(old(self).items@)[i]);
                    assert(old(self).graph.nodes()[ids(old(self).items@)[i] as int] == NodeType::Item);
                } else {
                    assert(ids(self.items@)[i] == n0 + n_t + (i - old(self).items@.len()));
                }
            }
            assert(self.wf());
        }
        Ok(())
    }

    /// Whether `ex` is a well-formed exchange with one of the shepherds,
    /// whose events so far follow the order of an epoch
    pub closed spec fn exchange_ok(&self, ex: &Exchange) -> bool {
        let n = self.sheep@.len();
        &&& 3 * n + 1 <= usize::MAX
        &&& ex.shepherd < self.seen@.len()
        &&& ex.position <= n + 1 + if ex.with_feeds { 2 * n } else { 0 }
        &&& ex.sent@.len() == ex.position
        &&& forall|j: int| 0 <= j < ex.sent@.len() ==> #[trigger] ex.sent@[j] == expected(j, ids(self.sheep@))
    }

    /// The number of events of the whole exchange `ex`: the start, one
    /// introduction per sheep, and with feeds a request and responses per
    /// sheep
    pub closed spec fn exchange_len(&self, ex: &Exchange) -> nat {
        let n = self.sheep@.len();
        n + 1 + if ex.with_feeds { 2 * n } else { 0 }
    }

    /// Whether `ex` waits on a feed from its shepherd
    pub closed spec fn awaits_feed(&self, ex: &Exchange) -> bool {
        let n = self.sheep@.len();
        ex.with_feeds && ex.position > n + 1 && (ex.position - n - 1) % 2 == 1
    }

    /// Starts the current epoch's exchange with shepherd `shepherd`; with
    /// `with_feeds` it runs on to feeds and responses for each sheep
    pub fn begin_exchange(&self, shepherd: usize, with_feeds: bool) -> (r: Result<Exchange, SimulationError>)
        requires
            self.wf(),
        ensures
            r is Err <==> shepherd >= self.shepherd_count() || 3 * self.sheep_ids().len() + 1 > usize::MAX,
            r is Err ==> r->Err_0 == if shepherd >= self.shepherd_count() {
                SimulationError::UnknownParticipant
            } else {
                SimulationError::Capacity
            },
            r is Ok ==> self.exchange_ok(&r->Ok_0) && r->Ok_0.sent_view().len() == 0 && r->Ok_0.shepherd_view()
                == shepherd && r->Ok_0.with_feeds_view() == with_feeds,
    {
        if shepherd >= self.seen.len() {
            return Err(SimulationError::UnknownParticipant);
        }
        if self.sheep.len() > (usize::MAX - 1) / 3 {
            return Err(SimulationError::Capacity);
        }
        Ok(Exchange { shepherd, position: 0, with_feeds, sent: Ghost(Seq::empty()) })
    }

    /// A copy of the record of the current epoch
    fn epoch_record(&self) -> (r: Epoch)
        ensures
            ids(r.tags@) == self.introduced_tags(),
            ids(r.items@) == self.introduced_items(),
    {
        Epoch { tags: from_ids(&crate::ids::to_ids(&self.epoch.tags)), items: from_ids(&crate::ids::to_ids(&self.epoch.items)) }
    }

    /// The next step of an exchange: the start of the epoch, then an
    /// introduction of every sheep with its tags, then, when the exchange
    /// runs on to feeds, a request for each sheep in turn, each awaiting its
    /// feed before anything else is sent
    pub fn next_step(&self, ex: &mut Exchange) -> (r: Step)
        requires
            self.wf(),
            self.exchange_ok(old(ex)),
        ensures
            self.exchange_ok(final(ex)),
            final(ex).shepherd_view() == old(ex).shepherd_view(),
            final(ex).with_feeds_view() == old(ex).with_feeds_view(),
            r is Done <==> old(ex).sent_view().len() == self.exchange_len(old(ex)),
            r is AwaitFeed <==> self.awaits_feed(old(ex)),
            match r {
                Step::Send(e) => {
                    &&& final(ex).sent_view() == old(ex).sent_view().push(kind_of(e))
                    &&& kind_of(e) == expected(old(ex).sent_view().len() as int, self.sheep_ids())
                    &&& e is BeginEpoch ==> e->BeginEpoch_id.0 == self.epoch_id()
                        && ids(e->BeginEpoch_data.tags@) == self.introduced_tags()
                        && ids(e->BeginEpoch_data.items@) == self.introduced_items()
                    &&& e is SheepIntroduction ==> forall|t: usize|
                        ids(e->SheepIntroduction_associated_tags@).contains(t) <==> adjacent(
                            self.graph_view().edges(),
                            e->SheepIntroduction_sheep.0,
                            t,
                        )
                },
                Step::AwaitFeed(sheep) => {
                    &&& self.awaits_feed(final(ex))
                    &&& *final(ex) == *old(ex)
                    &&& expected(old(ex).sent_view().len() as int, self.sheep_ids()) == Sent::Reply(sheep.0)
                },
                Step::Done => *final(ex) == *old(ex),
            },
    {
        let n = self.sheep.len();
        let p = ex.position;
        if p == 0 {
            let data = self.epoch_record();
            ex.position = 1;
            ex.sent = Ghost(ex.sent@.push(Sent::Begin));
            return Step::Send(SimulationEvent::BeginEpoch { id: self.current_epoch, data });
        }
        if p <= n {
            let sheep = self.sheep[p - 1];
            assert(ids(self.sheep@)[p - 1] == sheep.0);
            let associated_tags = self.graph.associated_tags(sheep);
            ex.position = p + 1;
            ex.sent = Ghost(ex.sent@.push(Sent::Intro(sheep.0)));
            return Step::Send(SimulationEvent::SheepIntroduction { sheep, associated_tags });
        }
        if !ex.with_feeds || p - n - 1 >= 2 * n {
            return Step::Done;
        }
        let i = (p - n - 1) / 2;
        let sheep = self.sheep[i];
        assert(ids(self.sheep@)[i as int] == sheep.0);
        if (p - n - 1) % 2 == 0 {
            ex.position = p + 1;
            ex.sent = Ghost(ex.sent@.push(Sent::Request(sheep.0)));
            Step::Send(SimulationEvent::FeedRequest { sheep })
        } else {
            Step::AwaitFeed(GraphId::new(sheep.0))
        }
    }

    /// The position, among the sheep, of the sheep whose feed `ex` awaits
    pub closed spec fn awaited(&self, ex: &Exchange) -> int {
        (ex.position - self.sheep@.len() - 1) / 2
    }

    /// Whether two states hold the same world and shepherds, whatever the
    /// shepherds have shown the sheep
    pub closed spec fn same_world(&self, other: &Simulation) -> bool {
        &&& self.current_epoch == other.current_epoch
        &&& self.graph == other.graph
        &&& self.settings == other.settings
        &&& self.tags == other.tags
        &&& self.sheep == other.sheep
        &&& self.items == other.items
        &&& self.tag_groups == other.tag_groups
        &&& self.tag_orphans == other.tag_orphans
        &&& self.epoch == other.epoch
        &&& self.seen@.len() == other.seen@.len()
    }

    /// Takes the feed that `ex` awaits: the items join what its shepherd has
    /// shown the sheep, and the sheep rates them; the result is the event
    /// that carries the responses back to the shepherd
    #[verifier::rlimit(100)]
    #[verifier::spinoff_prover]
    pub fn feed_received(&mut self, rng: &mut StdRng, ex: &mut Exchange, feed: Feed) -> (r: Result<SimulationEvent, SimulationError>)
        requires
            old(self).wf(),
            old(self).exchange_ok(old(ex)),
            old(self).awaits_feed(old(ex)),
        ensures
            r is Err <==> old(self).graph_view().edges().len() > MAX_EDGES,
            r is Err ==> r->Err_0 == SimulationError::GraphTooLarge && *final(self) == *old(self) && *final(ex)
                == *old(ex),
            r is Ok ==> {
                let e = r->Ok_0;
                let k = old(ex).shepherd_view() as int;
                let i = old(self).awaited(old(ex));
                let sheep = old(self).sheep_ids()[i];
                &&& final(self).wf()
                &&& final(self).same_world(old(self))
                &&& final(self).exchange_ok(final(ex))
                &&& final(ex).shepherd_view() == old(ex).shepherd_view()
                &&& final(ex).with_feeds_view() == old(ex).with_feeds_view()
                &&& final(ex).sent_view().len() < old(self).exchange_len(old(ex))
                    || final(ex).sent_view().len() == old(self).exchange_len(old(ex))
                &&& !old(self).awaits_feed(final(ex))
                &&& 0 <= i < old(self).sheep_ids().len()
                &&& final(ex).sent_view() == old(ex).sent_view().push(kind_of(e))
                &&& kind_of(e) == expected(old(ex).sent_view().len() as int, old(self).sheep_ids())
                &&& kind_of(e) == Sent::Reply(sheep)
                &&& e is Responses
                &&& e->Responses_responses.0@.len() == feed.0@.len()
                &&& forall|j: int|
                    0 <= j < feed.0@.len() ==> responds(
                        &old(self).graph_view(),
                        sheep,
                        feed.0@[j].0,
                        #[trigger] e->Responses_responses.0@[j].0 .0,
                        e->Responses_responses.0@[j].1,
                        e->Responses_responses.0@[j].2,
                    )
                &&& final(self).seen_view(k, i) == old(self).seen_view(k, i).union(ids(feed.0@).to_set())
                &&& final(self).feeds_view(k, i) == old(self).feeds_view(k, i).push(ids(feed.0@))
                &&& forall|q: int, s: int|
                    0 <= q < old(self).shepherd_count() && 0 <= s < old(self).sheep_ids().len() && (q, s) != (k, i)
                        ==> #[trigger] final(self).seen_view(q, s) == old(self).seen_view(q, s)
                &&& forall|q: int, s: int|
                    0 <= q < old(self).shepherd_count() && 0 <= s < old(self).sheep_ids().len() && (q, s) != (k, i)
                        ==> #[trigger] final(self).feeds_view(q, s) == old(self).feeds_view(q, s)
            },
    {
        if self.graph.edge_count() > MAX_EDGES {
            return Err(SimulationError::GraphTooLarge);
        }
        let n = self.sheep.len();
        let k = ex.shepherd;
        let i = (ex.position - n - 1) / 2;
        let sheep = self.sheep[i];
        proof {
            assert(ids(self.sheep@)[i as int] == sheep.0);
        }
        let ghost seen0 = self.seen@;
        let ghost row0 = self.seen@[k as int]@;
        let mut row: Vec<Vec<ItemId>> = Vec::new();
        std::mem::swap(&mut row, &mut self.seen[k]);
        let mut cell: Vec<ItemId> = Vec::new();
        std::mem::swap(&mut cell, &mut row[i]);
        record_feed(&mut cell, &feed.0);
        std::mem::swap(&mut cell, &mut row[i]);
        std::mem::swap(&mut row, &mut self.seen[k]);
        let ghost pushed = ids(feed.0@);
        self.feeds = Ghost(self.feeds@.update(k as int, self.feeds@[k as int].update(i as int, self.feeds@[k as int][i as int].push(pushed))));
        proof {
            assert(self.seen@[k as int]@ == row0.update(i as int, self.seen@[k as int]@[i as int]));
            assert forall|q: int| 0 <= q < self.seen@.len() implies {
                &&& (#[trigger] self.seen@[q])@.len() == self.sheep@.len()
                &&& self.feeds@[q].len() == self.sheep@.len()
                &&& forall|s: int| 0 <= s < self.sheep@.len() ==> ids((#[trigger] self.seen@[q]@[s])@).to_set() == union_of(self.feeds@[q][s])
            } by {
                if q == k {
                    assert forall|s: int| 0 <= s < self.sheep@.len() implies ids((#[trigger] self.seen@[q]@[s])@).to_set() == union_of(self.feeds@[q][s]) by {
                        if s == i {
                            let fs = old(self).feeds@[q][s];
                            assert(fs.push(pushed).drop_last() =~= fs);
                        } else {
                            assert(self.seen@[q]@[s] == seen0[q]@[s]);
                        }
                    }
                } else {
                    assert(self.seen@[q] == seen0[q]);
                }
            }
        }
        proof {
            assert forall|q: int, s: int|
                0 <= q < self.seen@.len() && 0 <= s < self.sheep@.len() && (q, s) != (k as int, i as int)
                    implies #[trigger] self.seen_view(q, s) == old(self).seen_view(q, s) by {
                if q == k {
                    assert(self.seen@[q]@[s] == seen0[q]@[s]);
                } else {
                    assert(self.seen@[q] == seen0[q]);
                }
            }
        }
        let responses = process_feed(rng, &self.graph, sheep, feed);
        ex.position = ex.position + 1;
        ex.sent = Ghost(ex.sent@.push(Sent::Reply(sheep.0)));
        Ok(SimulationEvent::Responses { sheep, responses })
    }

    /// Ends the simulation, handing back its parts
    pub fn stop(self) -> (r: SimulationParts)
        ensures
            r.final_epoch.0 == self.epoch_id(),
            ids(r.tags@) == self.tag_ids(),
            ids(r.sheep@) == self.sheep_ids(),
            ids(r.items@) == self.item_ids(),
            group_ids(r.tag_groups@) == self.groups_view(),
            ids(r.tag_orphans@) == self.orphan_ids(),
            r.graph == self.graph_view(),
            r.settings == self.settings_view(),
            r.shepherd_ids@.len() == self.shepherd_count(),
            forall|k: int| 0 <= k < r.shepherd_ids@.len() ==> #[trigger] r.shepherd_ids@[k].0 == k,
    {
        let mut shepherd_ids: Vec<ShepherdId> = Vec::new();
        for k in 0..self.seen.len()
            invariant
                shepherd_ids@.len() == k,
                forall|q: int| 0 <= q < k ==> #[trigger] shepherd_ids@[q].0 == q,
        {
            shepherd_ids.push(ShepherdId(k));
        }
        SimulationParts {
            final_epoch: self.current_epoch,
            graph: self.graph,
            settings: self.settings,
            tags: self.tags,
            sheep: self.sheep,
            items: self.items,
            tag_groups: self.tag_groups,
            tag_orphans: self.tag_orphans,
            shepherd_ids,
        }
    }

    /// The number of the current epoch
    pub fn current_epoch(&self) -> (r: EpochId)
        ensures
            r.0 == self.epoch_id(),
    {
        self.current_epoch
    }

    /// The graph
    pub fn graph(&self) -> (r: &SimulationGraph)
        ensures
            *r == self.graph_view(),
    {
        &self.graph
    }

    /// The tags, in order of creation
    pub fn tags(&self) -> (r: &Vec<TagId>)
        ensures
            ids(r@) == self.tag_ids(),
    {
        &self.tags
    }

    /// The sheep, in order of creation
    pub fn sheep(&self) -> (r: &Vec<SheepId>)
        ensures
            ids(r@) == self.sheep_ids(),
    {
        &self.sheep
    }

    /// The items, in order of creation
    pub fn items(&self) -> (r: &Vec<ItemId>)
        ensures
            ids(r@) == self.item_ids(),
    {
        &self.items
    }

    /// The tag groups
    pub fn tag_groups(&self) -> (r: &Vec<Vec<TagId>>)
        ensures
            group_ids(r@) == self.groups_view(),
    {
        &self.tag_groups
    }

    /// The orphaned tags
    pub fn tag_orphans(&self) -> (r: &Vec<TagId>)
        ensures
            ids(r@) == self.orphan_ids(),
    {
        &self.tag_orphans
    }

    /// The tags and items introduced by the current epoch
    pub fn epoch(&self) -> (r: &Epoch)
        ensures
            ids(r.tags@) == self.introduced_tags(),
            ids(r.items@) == self.introduced_items(),
    {
        &self.epoch
    }

    /// The number of shepherds
    pub fn n_shepherds(&self) -> (r: usize)
        ensures
            r == self.shepherd_count(),
    {
        self.seen.len()
    }

    /// The items that shepherd `shepherd` has shown the sheep at position
    /// `sheep` among the sheep, if both exist
    pub fn seen(&self, shepherd: usize, sheep: usize) -> (r: Option<&Vec<ItemId>>)
        requires
            self.wf(),
        ensures
            r is Some <==> shepherd < self.shepherd_count() && sheep < self.sheep_ids().len(),
            r is Some ==> ids(r->Some_0@).to_set() == self.seen_view(shepherd as int, sheep as int),
    {
        if shepherd < self.seen.len() && sheep < self.sheep.len() {
            Some(&self.seen[shepherd][sheep])
        } else {
            None
        }
    }

    /// The invariant of the simulation
    pub closed spec fn wf(&self) -> bool {
        &&& self.graph.wf()
        &&& self.settings.valid()
        &&& all_below(ids(self.tags@), self.graph.nodes().len())
        &&& all_below(ids(self.sheep@), self.graph.nodes().len())
        &&& all_below(ids(self.items@), self.graph.nodes().len())
        &&& increasing(ids(self.tags@))
        &&& kinds_ok(self.graph.nodes(), ids(self.tags@), ids(self.sheep@), ids(self.items@))
        &&& forall|k: int| 0 <= k < self.graph.edges().len() ==> tag_end(ids(self.tags@), #[trigger] self.graph.edges()[k])
        &&& tags_in(group_ids(self.tag_groups@)).add(ids(self.tag_orphans@).to_multiset()) == ids(self.tags@).to_multiset()
        &&& forall|i: int| 0 <= i < self.tag_groups@.len() ==> all_below(#[trigger] group_ids(self.tag_groups@)[i], self.graph.nodes().len())
        &&& forall|i: int| 0 <= i < self.tag_groups@.len() ==> linked_within(self.graph.edges(), #[trigger] group_ids(self.tag_groups@)[i])
        &&& all_below(ids(self.tag_orphans@), self.graph.nodes().len())
        &&& self.feeds@.len() == self.seen@.len()
        &&& forall|k: int| 0 <= k < self.seen@.len() ==> {
            &&& (#[trigger] self.seen@[k])@.len() == self.sheep@.len()
            &&& self.feeds@[k].len() == self.sheep@.len()
            &&& forall|s: int| 0 <= s < self.sheep@.len() ==> ids((#[trigger] self.seen@[k]@[s])@).to_set() == union_of(self.feeds@[k][s])
        }
    }
}

/// Every tag of a simulation is in exactly one group or among the orphans,
/// and nothing else is in a group or among the orphans
pub proof fn lemma_tags_placed_once(sim: &Simulation, t: usize)
    requires
        sim.wf(),
    ensures
        tags_in(sim.groups_view()).count(t) + sim.orphan_ids().to_multiset().count(t) == if sim.tag_ids().contains(t) {
            1nat
        } else {
            0nat
        },
{
    broadcast use vstd::multiset::group_multiset_axioms;

    let tags = sim.tag_ids();
    assert(tags.no_duplicates()) by {
        assert forall|i: int, j: int| 0 <= i < tags.len() && 0 <= j < tags.len() && i != j implies tags[i] != tags[j] by {
            if i < j {
                assert(tags[i] < tags[j]);
            } else {
                assert(tags[j] < tags[i]);
            }
        }
    }
    tags.lemma_multiset_has_no_duplicates();
    vstd::seq_lib::to_multiset_contains(tags, t);
    assert(tags_in(sim.groups_view()).add(sim.orphan_ids().to_multiset()).count(t) == tags.to_multiset().count(t));
}

/// Every edge of a simulation weighs from 1 to 10, and the members of each
/// tag group are linked pairwise in both directions
pub proof fn lemma_graph_shape(sim: &Simulation)
    requires
        sim.wf(),
    ensures
        forall|i: int|
            0 <= i < sim.graph_view().edges().len() ==> 1 <= #[trigger] sim.graph_view().edges()[i].2 <= 10,
        forall|i: int| 0 <= i < sim.groups_view().len() ==> linked_within(sim.graph_view().edges(), #[trigger] sim.groups_view()[i]),
{
}

/// Whatever is joined by an edge to a sheep or an item of a simulation is one
/// of its tags, a node of kind Tag; so the associated tags of a sheep or an
/// item are tags
pub proof fn lemma_associated_are_tags(sim: &Simulation, x: usize, t: usize)
    requires
        sim.wf(),
        sim.sheep_ids().contains(x) || sim.item_ids().contains(x),
        adjacent(sim.graph_view().edges(), x, t),
    ensures
        sim.tag_ids().contains(t),
        sim.graph_view().nodes()[t as int] == NodeType::Tag,
{
    let tags = sim.tag_ids();
    let nodes = sim.graph.nodes();
    let k = choose|k: int| 0 <= k < sim.graph.edges().len() && #[trigger] crate::graph::joins(sim.graph.edges()[k], x, t);
    assert(tag_end(tags, sim.graph.edges()[k]));
    if sim.sheep_ids().contains(x) {
        let i = choose|i: int| 0 <= i < sim.sheep_ids().len() && sim.sheep_ids()[i] == x;
        assert(nodes[ids(sim.sheep@)[i] as int] == NodeType::Sheep);
    } else {
        let i = choose|i: int| 0 <= i < sim.item_ids().len() && sim.item_ids()[i] == x;
        assert(nodes[ids(sim.items@)[i] as int] == NodeType::Item);
    }
    if tags.contains(x) {
        let j = choose|j: int| 0 <= j < tags.len() && tags[j] == x;
        assert(nodes[tags[j] as int] == NodeType::Tag);
    }
    let j = choose|j: int| 0 <= j < tags.len() && tags[j] == t;
    assert(nodes[tags[j] as int] == NodeType::Tag);
}

/// Across an epoch, as `simulate_epoch` states it, every sheep keeps exactly
/// the tags it was associated with: the epoch keeps every edge and adds
/// only edges between tags or from a tag to a new item
pub proof fn lemma_sheep_keep_tags(o: &Simulation, s: &Simulation, x: usize, t: usize)
    requires
        o.wf(),
        s.wf(),
        s.sheep_ids() == o.sheep_ids(),
        s.item_ids() == o.item_ids() + s.introduced_items(),
        s.graph_view().edges().len() >= o.graph_view().edges().len(),
        s.graph_view().edges().take(o.graph_view().edges().len() as int) == o.graph_view().edges(),
        forall|k: int|
            o.graph_view().edges().len() <= k < s.graph_view().edges().len() ==> {
                let e = #[trigger] s.graph_view().edges()[k];
                ||| s.tag_ids().contains(e.0) && s.tag_ids().contains(e.1)
                ||| s.tag_ids().contains(e.0) && s.introduced_items().contains(e.1)
            },
        o.sheep_ids().contains(x),
    ensures
        adjacent(s.graph_view().edges(), x, t) <==> adjacent(o.graph_view().edges(), x, t),
{
    let e1 = o.graph.edges();
    let e2 = s.graph.edges();
    let nodes = s.graph.nodes();
    let i = choose|i: int| 0 <= i < s.sheep_ids().len() && s.sheep_ids()[i] == x;
    assert(nodes[ids(s.sheep@)[i] as int] == NodeType::Sheep);
    if s.tag_ids().contains(x) {
        let j = choose|j: int| 0 <= j < s.tag_ids().len() && s.tag_ids()[j] == x;
        assert(nodes[ids(s.tags@)[j] as int] == NodeType::Tag);
    }
    if s.introduced_items().contains(x) {
        let j = choose|j: int| 0 <= j < s.introduced_items().len() && s.introduced_items()[j] == x;
        assert(s.item_ids()[o.item_ids().len() + j] == x);
        assert(nodes[ids(s.items@)[o.item_ids().len() + j] as int] == NodeType::Item);
    }
    if adjacent(e2, x, t) {
        let k = choose|k: int| 0 <= k < e2.len() && #[trigger] crate::graph::joins(e2[k], x, t);
        assert(k < e1.len());
        assert(e2[k] == e2.take(e1.len() as int)[k]);
        assert(crate::graph::joins(e1[k], x, t));
    }
    if adjacent(e1, x, t) {
        let k = choose|k: int| 0 <= k < e1.len() && #[trigger] crate::graph::joins(e1[k], x, t);
        assert(e2[k] == e2.take(e1.len() as int)[k]);
        assert(crate::graph::joins(e2[k], x, t));
    }
}

/// The items that a shepherd has shown a sheep are exactly those of the
/// feeds it has built for it
pub proof fn lemma_seen_is_union_of_feeds(sim: &Simulation, k: int, s: int)
    requires
        sim.wf(),
        0 <= k < sim.shepherd_count(),
        0 <= s < sim.sheep_ids().len(),
    ensures
        sim.seen_view(k, s) == union_of(sim.feeds_view(k, s)),
{
    assert(sim.seen@[k]@.len() == sim.sheep@.len());
}

/// A finished exchange holds, in order, the start of the epoch, the
/// introduction of every sheep and, when it runs on to feeds, for every sheep
/// a request followed by the responses
pub proof fn lemma_complete_exchange(sim: &Simulation, ex: &Exchange)
    requires
        sim.wf(),
        sim.exchange_ok(ex),
        ex.sent_view().len() == sim.exchange_len(ex),
    ensures
        ex.sent_view()[0] == Sent::Begin,
        forall|s: int| 0 <= s < sim.sheep_ids().len() ==> #[trigger] ex.sent_view()[s + 1] == Sent::Intro(sim.sheep_ids()[s]),
        ex.with_feeds_view() ==> forall|s: int|
            0 <= s < sim.sheep_ids().len() ==> {
                &&& #[trigger] ex.sent_view()[sim.sheep_ids().len() + 1 + 2 * s] == Sent::Request(sim.sheep_ids()[s])
                &&& ex.sent_view()[sim.sheep_ids().len() + 2 + 2 * s] == Sent::Reply(sim.sheep_ids()[s])
            },
        !ex.with_feeds_view() ==> ex.sent_view().len() == sim.sheep_ids().len() + 1,
{
    let sent = ex.sent_view();
    let n = sim.sheep_ids().len() as int;
    assert(sent[0] == expected(0, sim.sheep_ids()));
    assert forall|s: int| 0 <= s < n implies #[trigger] sent[s + 1] == Sent::Intro(sim.sheep_ids()[s]) by {
        assert(sent[s + 1] == expected(s + 1, sim.sheep_ids()));
    }
    if ex.with_feeds_view() {
        assert forall|s: int| 0 <= s < n implies {
            &&& #[trigger] sent[n + 1 + 2 * s] == Sent::Request(sim.sheep_ids()[s])
            &&& sent[n + 2 + 2 * s] == Sent::Reply(sim.sheep_ids()[s])
        } by {
            assert(sent[n + 1 + 2 * s] == expected(n + 1 + 2 * s, sim.sheep_ids()));
            assert(sent[n + 2 + 2 * s] == expected(n + 2 + 2 * s, sim.sheep_ids()));
            assert((2 * s) % 2 == 0 && (2 * s) / 2 == s) by (nonlinear_arith);
            assert((2 * s + 1) % 2 == 1 && (2 * s + 1) / 2 == s) by (nonlinear_arith);
        }
    }
}

/// In an epoch's exchange with a shepherd, every request for a feed and
/// every response comes after the start of the epoch and after the
/// introduction of every sheep
pub proof fn lemma_requests_follow_introductions(sim: &Simulation, ex: &Exchange, j: int)
    requires
        sim.wf(),
        sim.exchange_ok(ex),
        0 <= j < ex.sent_view().len(),
        ex.sent_view()[j] is Request || ex.sent_view()[j] is Reply,
    ensures
        j > sim.sheep_ids().len(),
        ex.sent_view()[0] == Sent::Begin,
        forall|s: int| 0 <= s < sim.sheep_ids().len() ==> #[trigger] ex.sent_view()[s + 1] == Sent::Intro(sim.sheep_ids()[s]),
{
    let sent = ex.sent_view();
    assert(sent[j] == expected(j, sim.sheep_ids()));
    assert(sent[0] == expected(0, sim.sheep_ids()));
    assert forall|s: int| 0 <= s < sim.sheep_ids().len() implies #[trigger] sent[s + 1] == Sent::Intro(sim.sheep_ids()[s]) by {
        assert(sent[s + 1] == expected(s + 1, sim.sheep_ids()));
    }
}

} // verus!
