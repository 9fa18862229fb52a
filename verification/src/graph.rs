//! The output computation graph and its builder.
//!
//! Nodes carry a kind (switch, join gate, math expression, tone
//! generator), a position hint, an optional numeric label, and an
//! append-only fan-out edge list.  Node indices live in a 16-bit space:
//! every allocation returns a strictly increasing index and fails with
//! a capacity error instead of wrapping once the space is exhausted.
//! The music-player assembly wires the driver, join gates, per-channel
//! expression and decoder nodes, and per-key tone generators exactly as
//! the emission interface expects, and either fully succeeds or returns
//! an error without emitting anything.

use vstd::prelude::*;

verus! {

use crate::Error;
use crate::encoder::{chunk_count, data_to_functions};
use crate::pack::{
    channel_count,
    filter_note_events,
    filter_spec,
    lemma_opt_series_sorted,
    lemma_series_sorted,
    pack_note_events,
    series,
    sort_events,
    sort_spec,
    used_count,
};
use crate::sequence::opt_seq;
use crate::render::{dec_str, render_u64};
use crate::sequence::{keys_sorted, key_in, lemma_spec_insert_keys, spec_insert, Sequence};

/// Where the serializer should place a node.
#[derive(Clone, Copy, Debug, PartialEq, Eq, Structural)]
pub enum PositionHint {
    /// The default spot.
    Origin,
    /// The user-facing switch panel.
    Switch,
    /// The tone-generator shelf.
    ToneGenerator,
}

/// What a node computes.
#[derive(Debug)]
pub enum NodeKind {
    /// The user-facing toggle that starts the player.
    Switch,
    /// A fan-in join gate.
    OrGate,
    /// An expression node evaluating the carried formula.
    MathBlock(String),
    /// A terminal effector sounding the carried MIDI pitch.
    ToneGenerator(u8),
}

/// One graph node: kind, placement, optional numeric label, and the
/// append-only list of dependents.
#[derive(Debug)]
pub struct GraphNode {
    pub kind: NodeKind,
    pub position: PositionHint,
    pub name_hint: Option<u16>,
    pub out_edges: Vec<u16>,
}

/// The finished graph with its designated entry node.
#[derive(Debug)]
pub struct NodeGraph {
    pub nodes: Vec<GraphNode>,
    pub root: u16,
}

/// Every edge of every node points inside the node list.
pub open spec fn edges_wf(nodes: Seq<GraphNode>) -> bool {
    forall|i: int, e: int|
        0 <= i < nodes.len() && 0 <= e < (#[trigger] nodes[i]).out_edges@.len() ==> ((
        #[trigger] nodes[i].out_edges@[e]) as int) < nodes.len()
}

/// A well-formed graph: at most the 16-bit index space of nodes, valid
/// edges, and a valid entry node.
pub open spec fn graph_wf(g: NodeGraph) -> bool {
    &&& g.nodes@.len() <= 65536
    &&& (g.root as int) < g.nodes@.len()
    &&& edges_wf(g.nodes@)
}

/// The deterministic, purely constructive graph assembler.
pub struct GraphBuilder {
    nodes: Vec<GraphNode>,
}

impl View for GraphBuilder {
    type V = Seq<GraphNode>;

    closed spec fn view(&self) -> Seq<GraphNode> {
        self.nodes@
    }
}

impl GraphBuilder {
    /// The builder invariant: the index space is respected and all
    /// edges point at allocated nodes.
    pub open spec fn wf(&self) -> bool {
        &&& self@.len() <= 65536
        &&& edges_wf(self@)
    }

    /// Start with no nodes.
    pub fn new() -> (r: Self)
        ensures
            r.wf(),
            r@.len() == 0,
    {
        GraphBuilder { nodes: Vec::new() }
    }

    /// The number of allocated nodes.
    pub fn len(&self) -> (r: usize)
        ensures
            r == self@.len(),
    {
        self.nodes.len()
    }

    /// Allocate the next node.  Indices increase strictly; once the
    /// 16-bit space is full the allocation fails instead of wrapping.
    pub fn allocate(&mut self, kind: NodeKind, position: PositionHint, name_hint: Option<u16>) -> (r:
        Result<u16, Error>)
        requires
            old(self).wf(),
        ensures
            final(self).wf(),
            match r {
                Ok(idx) => {
                    &&& old(self)@.len() < 65536
                    &&& idx as int == old(self)@.len()
                    &&& final(self)@.len() == old(self)@.len() + 1
                    &&& forall|i: int|
                        0 <= i < old(self)@.len() ==> final(self)@[i] == old(self)@[i]
                    &&& final(self)@.last().kind == kind
                    &&& final(self)@.last().position == position
                    &&& final(self)@.last().name_hint == name_hint
                    &&& final(self)@.last().out_edges@.len() == 0
                },
                Err(e) => {
                    &&& e == (Error::CapacityExceeded { count: old(self)@.len() as usize, bound: 65536usize })
                    &&& old(self)@.len() >= 65536
                    &&& final(self)@ == old(self)@
                },
            },
    {
        let n = self.nodes.len();
        if n >= 65536 {
            return Err(Error::CapacityExceeded { count: n, bound: 65536 });
        }
        self.nodes.push(GraphNode { kind, position, name_hint, out_edges: Vec::new() });
        proof {
            assert forall|i: int, e: int|
                0 <= i < self@.len() && 0 <= e < (#[trigger] self@[i]).out_edges@.len() implies ((
            #[trigger] self@[i].out_edges@[e]) as int) < self@.len() by {
                if i < self@.len() - 1 {
                    assert(self@[i] == old(self)@[i]);
                }
            }
        }
        Ok(n as u16)
    }

    /// Append `to` to the fan-out list of `from` (no deduplication:
    /// callers must not double-wire).
    pub fn connect(&mut self, from: u16, to: u16)
        requires
            old(self).wf(),
            (from as int) < old(self)@.len(),
            (to as int) < old(self)@.len(),
        ensures
            final(self).wf(),
            final(self)@.len() == old(self)@.len(),
            forall|i: int|
                0 <= i < old(self)@.len() && i != from as int ==> final(self)@[i] == old(
                    self,
                )@[i],
            final(self)@[from as int].out_edges@ == old(self)@[from as int].out_edges@.push(to),
            final(self)@[from as int].kind == old(self)@[from as int].kind,
            final(self)@[from as int].position == old(self)@[from as int].position,
            final(self)@[from as int].name_hint == old(self)@[from as int].name_hint,
    {
        let node = node_mut(&mut self.nodes, from as usize);
        node.out_edges.push(to);
        proof {
            assert forall|i: int, e: int|
                0 <= i < self@.len() && 0 <= e < (#[trigger] self@[i]).out_edges@.len() implies ((
            #[trigger] self@[i].out_edges@[e]) as int) < self@.len() by {
                if i != from as int {
                    assert(self@[i] == old(self)@[i]);
                } else {
                    if e < self@[i].out_edges@.len() - 1 {
                        assert(self@[i].out_edges@[e] == old(self)@[i].out_edges@[e]);
                    }
                }
            }
        }
    }

    /// Seal the graph with its entry node.
    pub fn finish(self, root: u16) -> (g: NodeGraph)
        requires
            self.wf(),
            (root as int) < self@.len(),
        ensures
            graph_wf(g),
            g.nodes@ == self@,
            g.root == root,
    {
        NodeGraph { nodes: self.nodes, root }
    }
}

/// Borrow one node mutably.
fn node_mut(nodes: &mut Vec<GraphNode>, i: usize) -> (r: &mut GraphNode)
    requires
        i < old(nodes)@.len(),
    ensures
        *r == old(nodes)@[i as int],
        final(nodes)@ == old(nodes)@.update(i as int, *final(r)),
{
    &mut nodes[i]
}

/// A sum capped just above the node-index space, so overflow cannot
/// hide a too-large total.
pub open spec fn capped_add(a: nat, b: nat) -> nat {
    if a + b > 65537 {
        65537
    } else {
        a + b
    }
}

/// Add with the cap.
fn add_capped(total: usize, x: usize) -> (r: usize)
    requires
        total <= 65537,
    ensures
        r == capped_add(total as nat, x as nat),
        r <= 65537,
{
    if x >= 65537 - total {
        65537
    } else {
        total + x
    }
}

/// The input time base, as normalized by the decoder collaborator.
#[derive(Clone, Copy, Debug, PartialEq, Eq, Structural)]
pub enum InputTiming {
    /// Metrical timing with the given ticks per quarter note.
    PerQuarterNote(u16),
    /// A time base that does not normalize to one integer tick scale.
    Unnormalized,
}

/// The static configuration of the player assembly.
pub struct PlayerConfig {
    /// Bits per packed channel value.
    pub notes_per_value: usize,
    /// Lowest MIDI pitch kept.
    pub min_pitch: u8,
    /// Highest MIDI pitch kept.
    pub max_pitch: u8,
    /// A note-on at or below this velocity counts as off.
    pub min_velocity: u8,
    /// Whether the driver phase wraps around.
    pub repeat: bool,
    /// The per-function term cap handed to the encoder.
    pub max_events_per_func: usize,
}

/// The tempo timeline folded into strictly increasing keys: a baseline
/// at time zero, the given changes (later entries at one time win), and
/// a terminator at the end of the time range.
pub open spec fn tempo_fold(events: Seq<(u32, u32)>, k: int) -> Seq<(usize, u32)>
    decreases
            (if k > 0 {
                k
            } else {
                0
            }),
{
    if k <= 0 {
        seq![(0usize, 120u32)]
    } else {
        spec_insert(tempo_fold(events, k - 1), events[k - 1].0 as usize, events[k - 1].1)
    }
}

/// The normalized tempo timeline, read back with 32-bit keys.
pub open spec fn tempo_list(events: Seq<(u32, u32)>) -> Seq<(u32, u32)> {
    spec_insert(tempo_fold(events, events.len() as int), u32::MAX as usize, 120u32).map_values(
        |p: (usize, u32)| (p.0 as u32, p.1),
    )
}

/// Normalize tempo events into a strictly increasing change list.
pub fn normalize_tempo(tempo_events: &Vec<(u32, u32)>) -> (r: Vec<(u32, u32)>)
    ensures
        forall|i: int, j: int|
            0 <= i < j < r@.len() ==> (#[trigger] r@[i]).0 < (#[trigger] r@[j]).0,
        r@.map_values(|p: (u32, u32)| (p.0 as usize, p.1)) == spec_insert(
            tempo_fold(tempo_events@, tempo_events@.len() as int),
            u32::MAX as usize,
            120u32,
        ),
        r@ == tempo_list(tempo_events@),
{
    let ghost ev = tempo_events@;
    let mut seq: Sequence<u32> = Sequence::new();
    seq.insert(0, 120);
    let n = tempo_events.len();
    let mut k: usize = 0;
    proof {
        assert(seq@ =~= seq![(0usize, 120u32)]);
    }
    while k < n
        invariant
            k <= n,
            n == ev.len(),
            ev == tempo_events@,
            keys_sorted(seq@),
            seq@ == tempo_fold(ev, k as int),
            forall|i: int| 0 <= i < seq@.len() ==> (#[trigger] seq@[i]).0 <= u32::MAX,
        decreases n - k,
    {
        let (t, v) = tempo_events[k];
        let ghost pre = seq@;
        seq.insert(t as usize, v);
        proof {
            lemma_spec_insert_keys(pre, t as usize, v);
            assert forall|i: int| 0 <= i < seq@.len() implies (#[trigger] seq@[i]).0
                <= u32::MAX by {
                assert(seq@[i].0 == t as usize || key_in(pre, seq@[i].0));
                if seq@[i].0 != t as usize {
                    let w = choose|w: int| 0 <= w < pre.len() && (#[trigger] pre[w]).0 == seq@[i].0;
                }
            }
        }
        k = k + 1;
    }
    let ghost pre2 = seq@;
    seq.insert(u32::MAX as usize, 120);
    proof {
        lemma_spec_insert_keys(pre2, u32::MAX as usize, 120u32);
        assert forall|i: int| 0 <= i < seq@.len() implies (#[trigger] seq@[i]).0 <= u32::MAX by {
            assert(seq@[i].0 == u32::MAX as usize || key_in(pre2, seq@[i].0));
            if seq@[i].0 != u32::MAX as usize {
                let w = choose|w: int| 0 <= w < pre2.len() && (#[trigger] pre2[w]).0 == seq@[i].0;
            }
        }
    }
    let entries = seq.iter();
    let m = entries.len();
    let mut out: Vec<(u32, u32)> = Vec::new();
    let mut j: usize = 0;
    while j < m
        invariant
            j <= m,
            m == entries@.len(),
            entries@ == seq@,
            keys_sorted(seq@),
            forall|i: int| 0 <= i < seq@.len() ==> (#[trigger] seq@[i]).0 <= u32::MAX,
            out@.len() == j,
            forall|i: int|
                0 <= i < j ==> (#[trigger] out@[i]) == ((seq@[i].0 as u32, seq@[i].1)),
        decreases m - j,
    {
        let (t, v) = entries[j];
        out.push((t as u32, v));
        j = j + 1;
    }
    proof {
        assert forall|i: int, jj: int|
            0 <= i < jj < out@.len() implies (#[trigger] out@[i]).0 < (#[trigger] out@[jj]).0 by {
            assert(seq@[i].0 < seq@[jj].0);
        }
        assert(out@.map_values(|p: (u32, u32)| (p.0 as usize, p.1)) =~= seq@);
        assert(out@ =~= tempo_list(tempo_events@));
    }
    out
}


/// One `ind(...)` selector assignment of the decoder expression.
pub open spec fn decoder_part(npv: nat, j: nat) -> Seq<char>
    recommends
        j < npv,
{
    "ind("@ + dec_str((npv - j) as nat) + ")=step(0.5,(A%1/2^"@ + dec_str(j) + ")*2^"@ + dec_str(
        j,
    ) + ")+step(1,A);"@
}

/// The first `j` selector assignments of the decoder expression.
pub open spec fn decoder_upto(npv: nat, j: nat) -> Seq<char>
    decreases j,
{
    if j == 0 {
        Seq::empty()
    } else {
        decoder_upto(npv, (j - 1) as nat) + decoder_part(npv, (j - 1) as nat)
    }
}

/// The decoder expression: one selector per bit, highest selector
/// number first, and a trailing zero result.
pub open spec fn decoder_str(npv: nat) -> Seq<char> {
    decoder_upto(npv, npv) + "0"@
}

/// Render the decoder expression for `npv` bits per channel.
pub fn render_decoder(npv: usize) -> (r: String)
    requires
        1 <= npv <= 32,
    ensures
        r@ == decoder_str(npv as nat),
{
    let mut r = String::new();
    let mut j: usize = 0;
    while j < npv
        invariant
            j <= npv,
            npv <= 32,
            r@ == decoder_upto(npv as nat, j as nat),
        decreases npv - j,
    {
        r.append("ind(");
        let ind = render_u64((npv - j) as u64);
        r.append(ind.as_str());
        r.append(")=step(0.5,(A%1/2^");
        let p1 = render_u64(j as u64);
        r.append(p1.as_str());
        r.append(")*2^");
        let p2 = render_u64(j as u64);
        r.append(p2.as_str());
        r.append(")+step(1,A);");
        proof {
            reveal_strlit("ind(");
            reveal_strlit(")=step(0.5,(A%1/2^");
            reveal_strlit(")*2^");
            reveal_strlit(")+step(1,A);");
            assert(r@ =~= decoder_upto(npv as nat, (j + 1) as nat));
        }
        j = j + 1;
    }
    r.append("0");
    proof {
        reveal_strlit("0");
        assert(r@ =~= decoder_str(npv as nat));
    }
    r
}

/// The driver expression: scales the wall-clock step by the tempo held
/// on the join gate and accumulates the playback phase, wrapping when
/// the player repeats.
pub open spec fn main_func_str(ppq: nat, total_len: nat, repeat: bool) -> Seq<char> {
    "s=0.0001;tempo_us=max(C*16777216,1);dt_sec=1/50;dt_ticks=dt_sec*"@ + dec_str(ppq)
        + "*1000000/tempo_us;B=1-B;A*(Lval+dt_ticks/"@ + dec_str(total_len) + ")"@ + if repeat {
        "%1"@
    } else {
        Seq::empty()
    }
}

/// Render the driver expression.
pub fn render_main_function(ppq: u16, total_len: u32, repeat: bool) -> (r: String)
    ensures
        r@ == main_func_str(ppq as nat, total_len as nat, repeat),
{
    let mut r = String::from_str("s=0.0001;tempo_us=max(C*16777216,1);dt_sec=1/50;dt_ticks=dt_sec*");
    let p = render_u64(ppq as u64);
    r.append(p.as_str());
    r.append("*1000000/tempo_us;B=1-B;A*(Lval+dt_ticks/");
    let l = render_u64(total_len as u64);
    r.append(l.as_str());
    r.append(")");
    if repeat {
        r.append("%1");
    }
    proof {
        reveal_strlit("s=0.0001;tempo_us=max(C*16777216,1);dt_sec=1/50;dt_ticks=dt_sec*");
        reveal_strlit("*1000000/tempo_us;B=1-B;A*(Lval+dt_ticks/");
        reveal_strlit(")");
        reveal_strlit("%1");
        assert(r@ =~= main_func_str(ppq as nat, total_len as nat, repeat));
    }
    r
}

/// A data expression node: scales the phase back to ticks, evaluates
/// one encoded step function, and divides the packed value down for the
/// join gate.
pub open spec fn channel_block_str(total_len: nat, f: Seq<char>, divisor: nat) -> Seq<char> {
    "x=A*"@ + dec_str(total_len) + ";n="@ + f + ";n/"@ + dec_str(divisor)
}

/// Render a data expression node around one encoded function.
pub fn render_channel_block(total_len: u32, f: &String, divisor: u64) -> (r: String)
    ensures
        r@ == channel_block_str(total_len as nat, f@, divisor as nat),
{
    let mut r = String::from_str("x=A*");
    let l = render_u64(total_len as u64);
    r.append(l.as_str());
    r.append(";n=");
    r.append(f.as_str());
    r.append(";n/");
    let d = render_u64(divisor);
    r.append(d.as_str());
    proof {
        reveal_strlit("x=A*");
        reveal_strlit(";n=");
        reveal_strlit(";n/");
        assert(r@ =~= channel_block_str(total_len as nat, f@, divisor as nat));
    }
    r
}

/// The packed change history of one channel of a sorted, filtered
/// event stream.
pub open spec fn channel_changes(ev: Seq<(u32, u8, bool)>, c: int, npv: int) -> Seq<(u32, u32)> {
    opt_seq(series(ev, ev.len() as int, c, npv), 0u32)
}

/// How many of the first `nn` bits of channel `c` map to a used key.
pub open spec fn bits_upto(used: int, c: int, npv: int, nn: int) -> nat
    decreases
            (if nn > 0 {
                nn
            } else {
                0
            }),
{
    if nn <= 0 {
        0
    } else {
        bits_upto(used, c, npv, nn - 1) + if c * npv + (nn - 1) < used {
            1nat
        } else {
            0nat
        }
    }
}

/// How many tone generators channel `c` needs: one per bit whose dense
/// key index exists.
pub open spec fn channel_bits(used: int, c: int, npv: int) -> nat {
    bits_upto(used, c, npv, npv)
}

/// The nodes the first `c` channels need: a decoder, a join gate, the
/// channel's tone generators, and one expression node per encoded
/// function.
pub open spec fn nodes_for_channels(ev: Seq<(u32, u8, bool)>, npv: int, max: int, c: int) -> nat
    decreases
            (if c > 0 {
                c
            } else {
                0
            }),
{
    if c <= 0 {
        0
    } else {
        (nodes_for_channels(ev, npv, max, c - 1) + 2 + channel_bits(used_count(ev) as int, c - 1, npv)
            + chunk_count(channel_changes(ev, c - 1, npv), max)) as nat
    }
}

/// The filtered, time-sorted note events the pipeline works on.
pub open spec fn pipeline_events(
    note_events: Seq<(u32, u8, u8, bool)>,
    config: PlayerConfig,
) -> Seq<(u32, u8, bool)> {
    sort_spec(filter_spec(note_events, config.min_pitch, config.max_pitch, config.min_velocity))
}

/// The number of nodes the whole player needs for the given inputs: the
/// five-node prologue, every channel's nodes, and one expression node
/// per tempo function.
pub open spec fn required_total(
    note_events: Seq<(u32, u8, u8, bool)>,
    tempo_events: Seq<(u32, u32)>,
    config: PlayerConfig,
) -> nat {
    let ev = pipeline_events(note_events, config);
    let npv = config.notes_per_value as int;
    let max = config.max_events_per_func as int;
    (5 + nodes_for_channels(
        ev,
        npv,
        max,
        channel_count(used_count(ev), config.notes_per_value as nat) as int,
    ) + chunk_count(tempo_list(tempo_events), max)) as nat
}

/// A count capped just above the node-index space.
pub open spec fn capped_of(x: nat) -> nat {
    if x > 65537 {
        65537
    } else {
        x
    }
}

/// The five-node prologue the assembly always lays down: the driver
/// expression at the origin, the user-facing switch, and the three
/// labelled join gates.
pub open spec fn prologue_wf(
    nodes: Seq<GraphNode>,
    ppq: u16,
    total_len: u32,
    repeat: bool,
) -> bool {
    &&& nodes.len() >= 5
    &&& (nodes[0].kind matches NodeKind::MathBlock(s) && s@ == main_func_str(
        ppq as nat,
        total_len as nat,
        repeat,
    ))
    &&& nodes[0].position == PositionHint::Origin
    &&& nodes[1].kind == NodeKind::Switch
    &&& nodes[1].position == PositionHint::Switch
    &&& nodes[2].kind == NodeKind::OrGate
    &&& nodes[2].name_hint == Some(2u16)
    &&& nodes[3].kind == NodeKind::OrGate
    &&& nodes[3].name_hint == Some(3u16)
    &&& nodes[4].kind == NodeKind::OrGate
    &&& nodes[4].name_hint == Some(4u16)
}

/// Every tone generator in the node list sounds a key the filtered
/// event stream actually uses.
pub open spec fn tones_from_used_keys(nodes: Seq<GraphNode>, ev: Seq<(u32, u8, bool)>) -> bool {
    forall|i: int|
        0 <= i < nodes.len() ==> ((#[trigger] nodes[i]).kind matches NodeKind::ToneGenerator(p)
            ==> crate::pack::key_used(ev, p as int))
}

/// Counting a prefix of a channel's bits never counts more than the
/// whole channel.
proof fn lemma_bits_upto_mono(used: int, c: int, npv: int, a: int, b: int)
    requires
        a <= b,
    ensures
        bits_upto(used, c, npv, a) <= bits_upto(used, c, npv, b),
    decreases b - a,
{
    if a < b {
        lemma_bits_upto_mono(used, c, npv, a, b - 1);
    }
}

/// Channel node counts grow with the channel prefix.
proof fn lemma_nodes_for_channels_mono(ev: Seq<(u32, u8, bool)>, npv: int, max: int, a: int, b: int)
    requires
        a <= b,
    ensures
        nodes_for_channels(ev, npv, max, a) <= nodes_for_channels(ev, npv, max, b),
    decreases b - a,
{
    if a < b {
        lemma_nodes_for_channels_mono(ev, npv, max, a, b - 1);
    }
}

/// Assemble the whole music-player graph from plain decoded inputs:
/// filter and sort the note events, fold them into packed per-channel
/// change histories, encode every channel and the tempo timeline into
/// bounded step functions, and wire driver, join gates, per-channel
/// expression and decoder nodes and per-key tone generators into one
/// graph.  An unnormalizable time base is rejected up front.  The
/// assembly succeeds exactly when the required node total fits the
/// 16-bit index space; otherwise the total is rejected, with its capped
/// value reported, before any node is built.  Nothing partial is ever
/// returned.
pub fn generate_music_player(
    note_events: &Vec<(u32, u8, u8, bool)>,
    tempo_events: &Vec<(u32, u32)>,
    timing: InputTiming,
    total_len: u32,
    config: &PlayerConfig,
) -> (r: Result<NodeGraph, Error>)
    requires
        1 <= config.notes_per_value <= 32,
        config.max_events_per_func >= 1,
    ensures
        timing == InputTiming::Unnormalized <==> r == Err::<NodeGraph, Error>(
            Error::UnsupportedInputTiming,
        ),
        timing matches InputTiming::PerQuarterNote(q) ==> {
            &&& (r is Ok <==> required_total(note_events@, tempo_events@, *config) <= 65536)
            &&& (r matches Ok(g) ==> graph_wf(g) && g.nodes@.len() == required_total(
                note_events@,
                tempo_events@,
                *config,
            ) && g.root == 1 && prologue_wf(g.nodes@, q, total_len, config.repeat)
                && tones_from_used_keys(g.nodes@, pipeline_events(note_events@, *config)))
            &&& (r is Err ==> required_total(note_events@, tempo_events@, *config) > 65536 && r
                == Err::<NodeGraph, Error>(
                Error::IntegerNarrowing {
                    count: capped_of(required_total(note_events@, tempo_events@, *config)) as usize,
                    bound: 65536usize,
                },
            ))
        },
{
    let ppq = match timing {
        InputTiming::PerQuarterNote(p) => p,
        InputTiming::Unnormalized => {
            return Err(Error::UnsupportedInputTiming);
        },
    };
    let npv = config.notes_per_value;
    let filtered = filter_note_events(
        note_events,
        config.min_pitch,
        config.max_pitch,
        config.min_velocity,
    );
    let sorted = sort_events(&filtered);
    let ghost ev = sorted@;
    proof {
        assert forall|i: int| 0 <= i < sorted@.len() implies (#[trigger] sorted@[i]).1 < 128 by {
            assert(filtered@.contains(sorted@[i]));
            let w = choose|w: int| 0 <= w < filtered@.len() && filtered@[w] == sorted@[i];
            assert(filtered@[w].1 < 128);
        }
    }
    let packed = pack_note_events(&sorted, npv);
    let changes = packed.0;
    let index_to_key = packed.1;
    let used = index_to_key.len();
    let channels = changes.len();
    proof {
        crate::pack::lemma_used_below_le(sorted@, 128);
        assert(used <= 128);
        assert((used as int - 1) / (npv as int) <= used as int - 1 || used == 0) by (
        nonlinear_arith)
            requires
                npv >= 1,
                used >= 0,
        ;
        assert(channels <= 128);
        assert(used == used_count(ev));
        assert(channels as nat == channel_count(used_count(ev), npv as nat));
    }

    let mut channel_funcs: Vec<Vec<String>> = Vec::new();
    let mut c: usize = 0;
    while c < channels
        invariant
            c <= channels,
            channels == changes@.len(),
            channel_funcs@.len() == c,
            1 <= npv <= 32,
            npv == config.notes_per_value,
            config.max_events_per_func >= 1,
            ev == sorted@,
            crate::pack::events_sorted(sorted@),
            forall|c2: int|
                0 <= c2 < changes@.len() ==> (#[trigger] changes@[c2])@ == crate::sequence::opt_seq(
                    crate::pack::series(sorted@, sorted@.len() as int, c2, npv as int),
                    0u32,
                ),
            forall|c2: int|
                0 <= c2 < c ==> (#[trigger] channel_funcs@[c2])@.len() == chunk_count(
                    channel_changes(ev, c2, npv as int),
                    config.max_events_per_func as int,
                ),
        decreases channels - c,
    {
        proof {
            lemma_series_sorted(sorted@, sorted@.len() as int, c as int, npv as int);
            lemma_opt_series_sorted(
                crate::pack::series(sorted@, sorted@.len() as int, c as int, npv as int),
                0u32,
            );
        }
        let fs = data_to_functions(&changes[c], config.max_events_per_func);
        channel_funcs.push(fs);
        c = c + 1;
    }

    let tempo_seq = normalize_tempo(tempo_events);
    let tempo_funcs = data_to_functions(&tempo_seq, config.max_events_per_func);
    proof {
        assert(tempo_funcs@.len() == chunk_count(
            tempo_list(tempo_events@),
            config.max_events_per_func as int,
        ));
    }

    let mut total: usize = 5;
    let mut c2: usize = 0;
    proof {
        assert(total as nat == capped_of(
            (5 + nodes_for_channels(ev, npv as int, config.max_events_per_func as int, 0)) as nat,
        ));
    }
    while c2 < channels
        invariant
            c2 <= channels,
            channels <= 128,
            channels == channel_funcs@.len(),
            1 <= npv <= 32,
            npv == config.notes_per_value,
            config.max_events_per_func >= 1,
            ev == sorted@,
            used <= 128,
            used == used_count(ev),
            total <= 65537,
            total as nat == capped_of(
                (5 + nodes_for_channels(
                    ev,
                    npv as int,
                    config.max_events_per_func as int,
                    c2 as int,
                )) as nat,
            ),
            forall|c3: int|
                0 <= c3 < channels ==> (#[trigger] channel_funcs@[c3])@.len() == chunk_count(
                    channel_changes(ev, c3, npv as int),
                    config.max_events_per_func as int,
                ),
        decreases channels - c2,
    {
        let ghost base = (5 + nodes_for_channels(
            ev,
            npv as int,
            config.max_events_per_func as int,
            c2 as int,
        )) as nat;
        total = add_capped(total, 2);
        proof {
            assert(total as nat == capped_of((base + 2) as nat));
        }
        let mut bits: usize = 0;
        let mut nn: usize = 0;
        while nn < npv
            invariant
                nn <= npv,
                npv <= 32,
                c2 < channels <= 128,
                used <= 128,
                bits <= nn,
                bits as nat == bits_upto(used as int, c2 as int, npv as int, nn as int),
            decreases npv - nn,
        {
            proof {
                assert(c2 * npv <= 127 * 32) by (nonlinear_arith)
                    requires
                        0 <= c2 <= 127 && npv <= 32,
                ;
            }
            if c2 * npv + nn < used {
                bits = bits + 1;
            }
            nn = nn + 1;
        }
        total = add_capped(total, bits);
        proof {
            assert(bits as nat == channel_bits(used as int, c2 as int, npv as int));
            assert(total as nat == capped_of(
                (base + 2 + channel_bits(used as int, c2 as int, npv as int)) as nat,
            ));
        }
        total = add_capped(total, channel_funcs[c2].len());
        proof {
            let cb = channel_bits(used as int, c2 as int, npv as int);
            let cf = chunk_count(
                channel_changes(ev, c2 as int, npv as int),
                config.max_events_per_func as int,
            );
            assert(channel_funcs@[c2 as int]@.len() == cf);
            assert(total as nat == capped_of((base + 2 + cb + cf) as nat));
            assert((base + 2 + cb + cf) as nat == (5 + nodes_for_channels(
                ev,
                npv as int,
                config.max_events_per_func as int,
                c2 + 1,
            )) as nat);
        }
        c2 = c2 + 1;
    }
    total = add_capped(total, tempo_funcs.len());
    let ghost req = required_total(note_events@, tempo_events@, *config);
    proof {
        assert(req == (5 + nodes_for_channels(
            ev,
            npv as int,
            config.max_events_per_func as int,
            channels as int,
        ) + chunk_count(tempo_list(tempo_events@), config.max_events_per_func as int)) as nat);
        assert(total as nat == capped_of(req));
    }
    if total > 65536 {
        proof {
            assert(req > 65536);
        }
        return Err(Error::IntegerNarrowing { count: total, bound: 65536 });
    }
    proof {
        assert(req <= 65536);
    }

    let tn = tempo_funcs.len();
    let mut b = GraphBuilder::new();
    let main_fn = render_main_function(ppq, total_len, config.repeat);
    proof {
        lemma_nodes_for_channels_mono(
            ev,
            npv as int,
            config.max_events_per_func as int,
            0,
            channels as int,
        );
        assert(b@.len() + 5 <= req);
    }
    let i0 = b.allocate(NodeKind::MathBlock(main_fn), PositionHint::Origin, None)?;
    let i1 = b.allocate(NodeKind::Switch, PositionHint::Switch, None)?;
    let i2 = b.allocate(NodeKind::OrGate, PositionHint::Origin, Some(2))?;
    let i3 = b.allocate(NodeKind::OrGate, PositionHint::Origin, Some(3))?;
    let i4 = b.allocate(NodeKind::OrGate, PositionHint::Origin, Some(4))?;
    b.connect(i0, i2);
    b.connect(i0, i4);
    b.connect(i1, i0);
    b.connect(i2, i0);
    b.connect(i3, i0);
    let mut c3: usize = 0;
    while c3 < channels
        invariant
            timing == InputTiming::PerQuarterNote(ppq),
            c3 <= channels,
            channels <= 128,
            channels == channel_funcs@.len(),
            1 <= npv <= 32,
            npv == config.notes_per_value,
            config.max_events_per_func >= 1,
            ev == sorted@,
            used <= 128,
            used == used_count(ev),
            used == index_to_key@.len(),
            tn == tempo_funcs@.len(),
            req == required_total(note_events@, tempo_events@, *config),
            req <= 65536,
            req == (5 + nodes_for_channels(
                ev,
                npv as int,
                config.max_events_per_func as int,
                channels as int,
            ) + tn) as nat,
            ev == pipeline_events(note_events@, *config),
            forall|cx: int|
                0 <= cx < channels ==> (#[trigger] channel_funcs@[cx])@.len() == chunk_count(
                    channel_changes(ev, cx, npv as int),
                    config.max_events_per_func as int,
                ),
            b.wf(),
            b@.len() == 5 + nodes_for_channels(
                ev,
                npv as int,
                config.max_events_per_func as int,
                c3 as int,
            ),
            prologue_wf(b@, ppq, total_len, config.repeat),
            tones_from_used_keys(b@, ev),
            forall|j: int|
                0 <= j < index_to_key@.len() ==> crate::pack::key_used(
                    ev,
                    (#[trigger] index_to_key@[j]) as int,
                ),
            (i1 as int) < b@.len(),
            (i3 as int) < b@.len(),
            (i4 as int) < b@.len(),
            i1 == 1,
        decreases channels - c3,
    {
        let ghost cb = channel_bits(used as int, c3 as int, npv as int);
        let ghost cf = chunk_count(
            channel_changes(ev, c3 as int, npv as int),
            config.max_events_per_func as int,
        );
        proof {
            assert(nodes_for_channels(ev, npv as int, config.max_events_per_func as int, c3 + 1)
                == (nodes_for_channels(ev, npv as int, config.max_events_per_func as int, c3 as int)
                + 2 + cb + cf) as nat);
            lemma_nodes_for_channels_mono(
                ev,
                npv as int,
                config.max_events_per_func as int,
                c3 + 1,
                channels as int,
            );
            assert(b@.len() + 2 + cb + cf + tn <= req);
        }
        let decoder_fn = render_decoder(npv);
        let dec = b.allocate(NodeKind::MathBlock(decoder_fn), PositionHint::Origin, None)?;
        let dec_in = b.allocate(NodeKind::OrGate, PositionHint::Origin, None)?;
        b.connect(dec_in, dec);
        let mut n3: usize = 0;
        while n3 < npv
            invariant
                timing == InputTiming::PerQuarterNote(ppq),
                n3 <= npv,
                c3 < channels <= 128,
                1 <= npv <= 32,
                npv == config.notes_per_value,
                config.max_events_per_func >= 1,
                ev == sorted@,
                used <= 128,
                used == used_count(ev),
                used == index_to_key@.len(),
                req == required_total(note_events@, tempo_events@, *config),
                req <= 65536,
                cb == channel_bits(used as int, c3 as int, npv as int),
                b.wf(),
                prologue_wf(b@, ppq, total_len, config.repeat),
                tones_from_used_keys(b@, ev),
                forall|j: int|
                    0 <= j < index_to_key@.len() ==> crate::pack::key_used(
                        ev,
                        (#[trigger] index_to_key@[j]) as int,
                    ),
                b@.len() == 5 + nodes_for_channels(
                    ev,
                    npv as int,
                    config.max_events_per_func as int,
                    c3 as int,
                ) + 2 + bits_upto(used as int, c3 as int, npv as int, n3 as int),
                b@.len() + (cb - bits_upto(used as int, c3 as int, npv as int, n3 as int)) + cf
                    + tn <= req,
                (i1 as int) < b@.len(),
                (i3 as int) < b@.len(),
                (i4 as int) < b@.len(),
                (dec as int) < b@.len(),
                (dec_in as int) < b@.len(),
            decreases npv - n3,
        {
            proof {
                assert(c3 * npv <= 127 * 32) by (nonlinear_arith)
                    requires
                        0 <= c3 <= 127 && npv <= 32,
                ;
                lemma_bits_upto_mono(used as int, c3 as int, npv as int, n3 + 1, npv as int);
            }
            let index = c3 * npv + n3;
            if index < used {
                let pitch = index_to_key[index];
                proof {
                    assert(b@.len() + 1 + (cb - bits_upto(
                        used as int,
                        c3 as int,
                        npv as int,
                        n3 + 1,
                    )) + cf + tn <= req);
                }
                let tone = b.allocate(
                    NodeKind::ToneGenerator(pitch),
                    PositionHint::ToneGenerator,
                    None,
                )?;
                b.connect(dec, tone);
            }
            n3 = n3 + 1;
        }
        let fn_count = channel_funcs[c3].len();
        proof {
            assert(bits_upto(used as int, c3 as int, npv as int, npv as int) == cb);
            assert(fn_count == cf);
        }
        let mut k3: usize = 0;
        while k3 < fn_count
            invariant
                timing == InputTiming::PerQuarterNote(ppq),
                k3 <= fn_count,
                c3 < channels,
                channels == channel_funcs@.len(),
                fn_count == channel_funcs@[c3 as int]@.len(),
                fn_count == cf,
                1 <= npv <= 32,
                req == required_total(note_events@, tempo_events@, *config),
                req <= 65536,
                b.wf(),
                prologue_wf(b@, ppq, total_len, config.repeat),
                tones_from_used_keys(b@, ev),
                b@.len() == 5 + nodes_for_channels(
                    ev,
                    npv as int,
                    config.max_events_per_func as int,
                    c3 as int,
                ) + 2 + cb + k3,
                b@.len() + (cf - k3) + tn <= req,
                (i1 as int) < b@.len(),
                (i3 as int) < b@.len(),
                (i4 as int) < b@.len(),
                (dec_in as int) < b@.len(),
            decreases fn_count - k3,
        {
            let block = render_channel_block(total_len, &channel_funcs[c3][k3], 1u64 << (
            npv as u64));
            let d = b.allocate(NodeKind::MathBlock(block), PositionHint::Origin, None)?;
            b.connect(d, dec_in);
            b.connect(i4, d);
            k3 = k3 + 1;
        }
        c3 = c3 + 1;
    }
    let mut k4: usize = 0;
    while k4 < tn
        invariant
            timing == InputTiming::PerQuarterNote(ppq),
            k4 <= tn,
            tn == tempo_funcs@.len(),
            req == required_total(note_events@, tempo_events@, *config),
            req <= 65536,
            b.wf(),
            prologue_wf(b@, ppq, total_len, config.repeat),
            tones_from_used_keys(b@, ev),
            ev == sorted@,
            ev == pipeline_events(note_events@, *config),
            b@.len() == req - tn + k4,
            (i1 as int) < b@.len(),
            (i3 as int) < b@.len(),
            (i4 as int) < b@.len(),
            i1 == 1,
        decreases tn - k4,
    {
        let block = render_channel_block(total_len, &tempo_funcs[k4], 16777216);
        let t = b.allocate(NodeKind::MathBlock(block), PositionHint::Origin, None)?;
        b.connect(t, i3);
        b.connect(i4, t);
        k4 = k4 + 1;
    }
    proof {
        assert(b@.len() == req);
    }
    Ok(b.finish(i1))
}

} // verus!

