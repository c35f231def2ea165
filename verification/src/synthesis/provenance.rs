//! The provenance of insights: tracing a memory to its sources, layer by layer,
//! and undoing a synthesis.

use crate::score;
use crate::score::Score;
use crate::synthesis::engine;
use crate::synthesis::types::{
    GateScores, MemoryCluster, MemoryRecord, ProvenanceChain, ProvenanceRecord, RestoredSource,
    SynthesisOutput, Timestamp, UndoSynthesis,
};
use crate::text;
use vstd::prelude::*;
use vstd::string::*;

verus! {

/// The sources of a list of records.
pub open spec fn sources_of(layer: Seq<ProvenanceRecord>) -> Seq<Seq<char>> {
    layer.map_values(|r: ProvenanceRecord| r.source_id@)
}

fn source_ids(layer: &Vec<ProvenanceRecord>) -> (r: Vec<String>)
    ensures
        text::views(r@) == sources_of(layer@),
{
    let ghost all = sources_of(layer@);
    let mut out: Vec<String> = Vec::new();
    let mut i: usize = 0;
    while i < layer.len()
        invariant
            i <= layer@.len(),
            all == sources_of(layer@),
            text::views(out@) == all.take(i as int),
        decreases layer.len() - i,
    {
        let ghost before = text::views(out@);
        out.push(layer[i].source_id.clone());
        proof {
            assert(text::views(out@) =~= before.push(all[i as int]));
            assert(all.take(i + 1) =~= all.take(i as int).push(all[i as int]));
        }
        i += 1;
    }
    assert(all.take(i as int) =~= all);
    out
}

/// A trace in progress: the layers found so far, and the memories whose sources
/// come next.
#[derive(Debug)]
pub struct ProvenanceTrace {
    /// The layers so far.
    pub chain: ProvenanceChain,
    /// The memories whose sources come next.
    pub frontier: Vec<String>,
    /// How many layers may still be added.
    pub depth_left: usize,
    /// Whether a layer was empty.
    pub ended: bool,
}

impl ProvenanceTrace {
    /// The memories whose sources come next: the sources of the last layer, and
    /// the memory itself before there is one.
    pub open spec fn valid(self) -> bool {
        &&& self.chain.layers@.len() == 0 ==> text::views(self.frontier@) == seq![
            self.chain.root_id@,
        ]
        &&& self.chain.layers@.len() > 0 ==> text::views(self.frontier@) == sources_of(
            self.chain.layers@.last()@,
        )
        &&& forall|i: int|
            0 <= i < self.chain.layers@.len() ==> (#[trigger] self.chain.layers@[i])@.len() > 0
    }

    /// Whether another layer is asked for.
    pub open spec fn open(self) -> bool {
        !self.ended && self.depth_left > 0
    }

    /// Starts a trace of at most `max_depth` layers.
    pub fn new(memory_id: &str, max_depth: usize) -> (r: ProvenanceTrace)
        ensures
            r.valid(),
            r.chain.root_id@ == memory_id@,
            r.chain.layers@.len() == 0,
            r.depth_left == max_depth,
            !r.ended,
    {
        let mut frontier: Vec<String> = Vec::new();
        frontier.push(memory_id.to_owned());
        assert(text::views(frontier@) =~= seq![memory_id@]);
        ProvenanceTrace {
            chain: ProvenanceChain { root_id: memory_id.to_owned(), layers: Vec::new() },
            frontier,
            depth_left: max_depth,
            ended: false,
        }
    }

    /// Whether the sources of the frontier are asked for.
    pub fn wants_layer(&self) -> (r: bool)
        ensures
            r == self.open(),
    {
        !self.ended && self.depth_left > 0
    }

    /// Takes in the sources of the frontier. An empty layer ends the trace.
    pub fn advance(&mut self, layer: Vec<ProvenanceRecord>)
        requires
            old(self).valid(),
            old(self).open(),
        ensures
            final(self).valid(),
            final(self).chain.root_id == old(self).chain.root_id,
            final(self).depth_left == old(self).depth_left - 1,
            final(self).ended == (layer@.len() == 0),
            final(self).chain.layers@ == if layer@.len() == 0 {
                old(self).chain.layers@
            } else {
                old(self).chain.layers@.push(layer)
            },
    {
        self.depth_left -= 1;
        if layer.len() == 0 {
            self.ended = true;
        } else {
            self.frontier = source_ids(&layer);
            self.chain.layers.push(layer);
        }
    }

    /// Ends the trace.
    pub fn finish(self) -> (r: ProvenanceChain)
        ensures
            r == self.chain,
    {
        self.chain
    }
}

/// The layers of a memory over the links of a database: `links` gives the
/// records of an insight, and a layer holds those of the sources before it.
pub open spec fn layer_of(links: spec_fn(Seq<char>) -> Seq<ProvenanceRecord>, ids: Seq<Seq<char>>) -> Seq<
    ProvenanceRecord,
>
    decreases ids.len(),
{
    if ids.len() == 0 {
        Seq::empty()
    } else {
        layer_of(links, ids.drop_last()) + links(ids.last())
    }
}

/// The layers of a memory, down to a depth or to where nothing is left.
pub open spec fn layers_from(
    links: spec_fn(Seq<char>) -> Seq<ProvenanceRecord>,
    ids: Seq<Seq<char>>,
    depth: nat,
) -> Seq<Seq<ProvenanceRecord>>
    decreases depth,
{
    if depth == 0 {
        Seq::empty()
    } else {
        let layer = layer_of(links, ids);
        if layer.len() == 0 {
            Seq::empty()
        } else {
            seq![layer] + layers_from(links, sources_of(layer), (depth - 1) as nat)
        }
    }
}

/// The layers of a chain.
pub open spec fn layer_views(layers: Seq<Vec<ProvenanceRecord>>) -> Seq<Seq<ProvenanceRecord>> {
    layers.map_values(|l: Vec<ProvenanceRecord>| l@)
}

/// What a trace has found and what it has still to find make up the layers of
/// the memory: a step that takes in the layer of the frontier keeps that.
pub proof fn law_trace_finds_layers(
    links: spec_fn(Seq<char>) -> Seq<ProvenanceRecord>,
    before: ProvenanceTrace,
    after: ProvenanceTrace,
    layer: Vec<ProvenanceRecord>,
)
    requires
        before.valid(),
        before.open(),
        layer@ == layer_of(links, text::views(before.frontier@)),
        after.valid(),
        after.depth_left == before.depth_left - 1,
        after.ended == (layer@.len() == 0),
        after.chain.layers@ == if layer@.len() == 0 {
            before.chain.layers@
        } else {
            before.chain.layers@.push(layer)
        },
    ensures
        layer_views(before.chain.layers@) + layers_from(
            links,
            text::views(before.frontier@),
            before.depth_left as nat,
        ) == layer_views(after.chain.layers@) + (if after.ended {
            Seq::empty()
        } else {
            layers_from(links, text::views(after.frontier@), after.depth_left as nat)
        }),
{
    if layer@.len() > 0 {
        assert(after.chain.layers@.last() == layer);
        assert(layer_views(after.chain.layers@) =~= layer_views(before.chain.layers@).push(layer@));
        let rest = layers_from(links, text::views(after.frontier@), after.depth_left as nat);
        assert(layer_views(before.chain.layers@) + (seq![layer@] + rest) =~= layer_views(
            after.chain.layers@,
        ) + rest);
    } else {
        assert(layer_views(before.chain.layers@) + Seq::<Seq<ProvenanceRecord>>::empty()
            =~= layer_views(before.chain.layers@));
    }
}

/// No chain is longer than the depth that was asked for.
pub proof fn law_chain_depth(
    links: spec_fn(Seq<char>) -> Seq<ProvenanceRecord>,
    ids: Seq<Seq<char>>,
    depth: nat,
)
    ensures
        layers_from(links, ids, depth).len() <= depth,
        forall|i: int|
            0 <= i < layers_from(links, ids, depth).len() ==> (#[trigger] layers_from(
                links,
                ids,
                depth,
            )[i]).len() > 0,
    decreases depth,
{
    if depth > 0 {
        let layer = layer_of(links, ids);
        if layer.len() > 0 {
            let rest = layers_from(links, sources_of(layer), (depth - 1) as nat);
            law_chain_depth(links, sources_of(layer), (depth - 1) as nat);
            let all = layers_from(links, ids, depth);
            assert forall|i: int| 0 <= i < all.len() implies (#[trigger] all[i]).len() > 0 by {
                if i > 0 {
                    assert(all[i] == rest[i - 1]);
                }
            }
        }
    }
}

// ---------------------------------------------------------------------------
// Undo
// ---------------------------------------------------------------------------

/// What becomes of the source of a record: its importance is restored where the
/// record holds it.
pub open spec fn restores(s: RestoredSource, r: ProvenanceRecord) -> bool {
    &&& s.memory_id@ == r.source_id@
    &&& s.restored == (r.source_original_importance is Some)
    &&& s.original_importance == match r.source_original_importance {
        Some(i) => i,
        None => Score { bits: score::ZERO },
    }
}

/// Plans the undoing of a synthesis from the records of the insight: the
/// importance of each source is restored where it was recorded. An insight
/// without records cannot be undone.
pub fn undo_synthesis(insight_id: &str, records: &Vec<ProvenanceRecord>) -> (r: Result<
    UndoSynthesis,
    String,
>)
    ensures
        match r {
            Ok(u) => {
                &&& records@.len() > 0
                &&& u.insight_id@ == insight_id@
                &&& u.restored_sources@.len() == records@.len()
                &&& forall|i: int|
                    0 <= i < records@.len() ==> restores(
                        #[trigger] u.restored_sources@[i],
                        records@[i],
                    )
            },
            Err(e) => records@.len() == 0 && e@ == "No provenance records found for insight "@
                + insight_id@,
        },
{
    if records.len() == 0 {
        let mut e: String = "No provenance records found for insight ".to_owned();
        e.append(insight_id);
        return Err(e);
    }
    let mut restored: Vec<RestoredSource> = Vec::new();
    let mut i: usize = 0;
    while i < records.len()
        invariant
            i <= records@.len(),
            restored@.len() == i,
            forall|k: int| 0 <= k < i ==> restores(#[trigger] restored@[k], records@[k]),
        decreases records.len() - i,
    {
        let memory_id: String = records[i].source_id.clone();
        match records[i].source_original_importance {
            Some(original_importance) => {
                restored.push(RestoredSource { memory_id, original_importance, restored: true });
            },
            None => {
                restored.push(
                    RestoredSource {
                        memory_id,
                        original_importance: Score { bits: score::ZERO },
                        restored: false,
                    },
                );
            },
        }
        i += 1;
    }
    Ok(UndoSynthesis { insight_id: insight_id.to_owned(), restored_sources: restored })
}

/// The restorations among a list: the sources with the importance that they get
/// back.
pub open spec fn restorations(v: Seq<RestoredSource>) -> Seq<(Seq<char>, Score)>
    decreases v.len(),
{
    if v.len() == 0 {
        Seq::empty()
    } else {
        let rest = restorations(v.drop_last());
        if v.last().restored {
            rest.push((v.last().memory_id@, v.last().original_importance))
        } else {
            rest
        }
    }
}

/// Undoing a synthesis gives each source that it demoted the importance that it
/// had, and touches no other: what is restored from the records of an insight is
/// what was demoted for it, in the same order.
pub proof fn law_undo_restores_demotions(
    cluster: MemoryCluster,
    members: Seq<MemoryRecord>,
    output: SynthesisOutput,
    scores: GateScores,
    now: Timestamp,
    insight_id: Seq<char>,
    ids: Seq<String>,
    records: Seq<ProvenanceRecord>,
    restored: Seq<RestoredSource>,
)
    requires
        records.len() == output.source_references@.len(),
        ids.len() == records.len(),
        restored.len() == records.len(),
        forall|i: int|
            0 <= i < records.len() ==> engine::links_source(
                #[trigger] records[i],
                ids[i]@,
                insight_id,
                output.source_references@[i]@,
                cluster,
                members,
                output,
                scores,
                now,
            ),
        forall|i: int| 0 <= i < records.len() ==> restores(#[trigger] restored[i], records[i]),
    ensures
        restorations(restored) == engine::demotions_of(
            members,
            text::views(output.source_references@),
        ),
{
    let sources = text::views(output.source_references@);
    lemma_undo_prefix(members, sources, records, restored, records.len() as int);
    assert(restored.take(records.len() as int) =~= restored);
    assert(sources.take(records.len() as int) =~= sources);
}

proof fn lemma_undo_prefix(
    members: Seq<MemoryRecord>,
    sources: Seq<Seq<char>>,
    records: Seq<ProvenanceRecord>,
    restored: Seq<RestoredSource>,
    n: int,
)
    requires
        0 <= n <= records.len(),
        records.len() == sources.len(),
        records.len() == restored.len(),
        forall|i: int|
            0 <= i < records.len() ==> (#[trigger] records[i]).source_id@ == sources[i]
                && records[i].source_original_importance == engine::importance_of(
                members,
                sources[i],
            ),
        forall|i: int| 0 <= i < records.len() ==> restores(#[trigger] restored[i], records[i]),
    ensures
        restorations(restored.take(n)) == engine::demotions_of(members, sources.take(n)),
    decreases n,
{
    if n > 0 {
        lemma_undo_prefix(members, sources, records, restored, n - 1);
        assert(restored.take(n).drop_last() =~= restored.take(n - 1));
        assert(sources.take(n).drop_last() =~= sources.take(n - 1));
        assert(restores(restored[n - 1], records[n - 1]));
    }
}

/// A layer holds the records of its ids, those of an earlier id before those of
/// a later one, and no others.
pub proof fn law_layer_holds_every_record(
    links: spec_fn(Seq<char>) -> Seq<ProvenanceRecord>,
    a: Seq<Seq<char>>,
    b: Seq<Seq<char>>,
    id: Seq<char>,
)
    ensures
        layer_of(links, a + b) == layer_of(links, a) + layer_of(links, b),
        layer_of(links, seq![id]) == links(id),
    decreases b.len(),
{
    assert(seq![id].drop_last() =~= Seq::<Seq<char>>::empty());
    assert(layer_of(links, seq![id]) == layer_of(links, seq![id].drop_last()) + links(
        seq![id].last(),
    ));
    assert(layer_of(links, seq![id]) =~= links(id));
    if b.len() == 0 {
        assert(a + b =~= a);
        assert(layer_of(links, a) + layer_of(links, b) =~= layer_of(links, a));
    } else {
        law_layer_holds_every_record(links, a, b.drop_last(), id);
        assert((a + b).drop_last() =~= a + b.drop_last());
        assert((a + b).last() == b.last());
        assert(layer_of(links, a + b) =~= layer_of(links, a) + layer_of(links, b));
    }
}

/// Each layer of a chain holds the records of the sources of the layer before it,
/// the first those of the memory asked for; and the chain goes on until there are
/// no more records or it is as deep as was asked for.
pub proof fn law_layers_follow_the_sources(
    links: spec_fn(Seq<char>) -> Seq<ProvenanceRecord>,
    ids: Seq<Seq<char>>,
    depth: nat,
    i: int,
)
    ensures
        0 < i < layers_from(links, ids, depth).len() ==> layers_from(links, ids, depth)[i]
            == layer_of(
            links,
            layers_from(links, ids, depth)[i - 1].map_values(|r: ProvenanceRecord| r.source_id@),
        ),
        0 < layers_from(links, ids, depth).len() ==> layers_from(links, ids, depth)[0] == layer_of(
            links,
            ids,
        ),
        layers_from(links, ids, depth).len() == 0 && depth > 0 ==> layer_of(links, ids).len() == 0,
        0 < layers_from(links, ids, depth).len() < depth ==> layer_of(
            links,
            layers_from(links, ids, depth).last().map_values(
                |r: ProvenanceRecord| r.source_id@,
            ),
        ).len() == 0,
    decreases depth,
{
    let all = layers_from(links, ids, depth);
    if all.len() > 0 {
        let layer = layer_of(links, ids);
        let sources = layer.map_values(|r: ProvenanceRecord| r.source_id@);
        assert(sources_of(layer) =~= sources);
        let rest = layers_from(links, sources_of(layer), (depth - 1) as nat);
        law_layers_follow_the_sources(links, sources_of(layer), (depth - 1) as nat, i - 1);
        assert(all =~= seq![layer] + rest);
        assert(all[0] == layer);
        if 0 < i < all.len() {
            assert(all[i] == rest[i - 1]);
            if i > 1 {
                assert(all[i - 1] == rest[i - 2]);
            }
        }
        if all.len() < depth && rest.len() > 0 {
            assert(all.last() == rest.last());
        }
    }
}

/// Undoing an insight gives each of its sources the importance back that it had,
/// where that is known, and touches no other.
pub proof fn law_undo_gives_importance_back(s: RestoredSource, r: ProvenanceRecord)
    requires
        restores(s, r),
    ensures
        s.memory_id@ == r.source_id@,
        r.source_original_importance matches Some(i) ==> s.restored && s.original_importance == i,
        r.source_original_importance is None ==> !s.restored,
{
}

/// What is restored are the sources that are marked so, all of them, in order,
/// with the importance that they had.
pub proof fn law_marked_sources_are_restored(v: Seq<RestoredSource>)
    ensures
        restorations(v) == v.filter(|s: RestoredSource| s.restored).map_values(
            |s: RestoredSource| (s.memory_id@, s.original_importance),
        ),
    decreases v.len(),
{
    reveal(Seq::filter);
    let pair = |s: RestoredSource| (s.memory_id@, s.original_importance);
    let keep = |s: RestoredSource| s.restored;
    if v.len() == 0 {
        assert(v.filter(keep).map_values(pair) =~= Seq::empty());
    } else {
        law_marked_sources_are_restored(v.drop_last());
        let rest = v.drop_last().filter(keep);
        if v.last().restored {
            assert(rest.push(v.last()).map_values(pair) =~= rest.map_values(pair).push(
                pair(v.last()),
            ));
        }
    }
}

} // verus!
