//! Tests for the graph builder, the event fold, and the whole player
//! assembly.

use midi2swstruct::graph::{
    generate_music_player, normalize_tempo, GraphBuilder, InputTiming, NodeKind, PlayerConfig,
    PositionHint,
};
use midi2swstruct::pack::{filter_note_events, pack_note_events, sort_events};
use midi2swstruct::Error;

#[test]
fn builder_allocates_strictly_increasing_indices() {
    let mut b = GraphBuilder::new();
    let i0 = b.allocate(NodeKind::Switch, PositionHint::Switch, None).unwrap();
    let i1 = b.allocate(NodeKind::OrGate, PositionHint::Origin, None).unwrap();
    assert_eq!(i0, 0);
    assert_eq!(i1, 1);
    b.connect(i0, i1);
    let g = b.finish(i0);
    assert_eq!(g.nodes.len(), 2);
    assert_eq!(g.nodes[0].out_edges, vec![1]);
    assert_eq!(g.root, 0);
}

#[test]
fn builder_never_wraps_past_the_index_space() {
    // Exhausting the 16-bit index space must fail with a capacity error
    // rather than wrap.
    let mut b = GraphBuilder::new();
    for expected in 0..65536usize {
        let idx = b.allocate(NodeKind::OrGate, PositionHint::Origin, None).unwrap();
        assert_eq!(idx as usize, expected);
    }
    match b.allocate(NodeKind::OrGate, PositionHint::Origin, None) {
        Err(Error::CapacityExceeded { count, bound }) => {
            assert_eq!(count, 65536);
            assert_eq!(bound, 65536);
        }
        _ => panic!("allocation past the index space must fail"),
    }
}

#[test]
fn filter_and_sort_note_events() {
    let raw = vec![
        (10u32, 60u8, 100u8, true),
        (0, 200, 100, true),  // out of pitch range
        (5, 30, 10, true),    // too quiet: becomes an off event
        (0, 60, 0, false),
    ];
    let filtered = filter_note_events(&raw, 20, 120, 31);
    assert_eq!(filtered, vec![(10, 60, true), (5, 30, false), (0, 60, false)]);
    let sorted = sort_events(&filtered);
    assert_eq!(sorted, vec![(0, 60, false), (5, 30, false), (10, 60, true)]);
}

#[test]
fn pack_counts_polyphony_and_packs_bits() {
    // Keys 60 and 61 share one channel of eight bits; key 60 is pressed
    // twice, so one release keeps its bit set.
    let events = vec![
        (0u32, 60u8, true),
        (0, 61, true),
        (4, 60, true),
        (8, 60, false),
        (12, 60, false),
        (12, 61, false),
    ];
    let (changes, index_to_key) = pack_note_events(&events, 8);
    assert_eq!(index_to_key, vec![60, 61]);
    assert_eq!(changes.len(), 1);
    assert_eq!(changes[0], vec![(0, 0b11), (12, 0)]);
}

#[test]
fn pack_splits_channels_by_group_size() {
    // With one bit per channel, each used key gets its own channel.
    let events = vec![(0u32, 10u8, true), (3, 20, true), (6, 10, false)];
    let (changes, index_to_key) = pack_note_events(&events, 1);
    assert_eq!(index_to_key, vec![10, 20]);
    assert_eq!(changes.len(), 2);
    assert_eq!(changes[0], vec![(0, 1), (6, 0)]);
    assert_eq!(changes[1], vec![(3, 1)]);
}

#[test]
fn normalize_tempo_brackets_the_timeline() {
    let r = normalize_tempo(&vec![(5, 500000), (5, 600000), (9, 400000)]);
    assert_eq!(r, vec![(0, 120), (5, 600000), (9, 400000), (u32::MAX, 120)]);
}

#[test]
fn player_rejects_unnormalizable_timing() {
    let config = PlayerConfig {
        notes_per_value: 8,
        min_pitch: 0,
        max_pitch: 127,
        min_velocity: 0,
        repeat: false,
        max_events_per_func: 100,
    };
    let r = generate_music_player(&vec![], &vec![], InputTiming::Unnormalized, 10, &config);
    assert!(matches!(r, Err(Error::UnsupportedInputTiming)));
}

#[test]
fn player_assembles_expected_graph() {
    let config = PlayerConfig {
        notes_per_value: 8,
        min_pitch: 0,
        max_pitch: 127,
        min_velocity: 0,
        repeat: false,
        max_events_per_func: 100,
    };
    let notes = vec![(0u32, 60u8, 100u8, true), (10, 60, 0, false)];
    let g = generate_music_player(
        &notes,
        &vec![],
        InputTiming::PerQuarterNote(480),
        10,
        &config,
    )
    .unwrap();
    assert_eq!(g.nodes.len(), 10);
    assert_eq!(g.root, 1);

    match &g.nodes[0].kind {
        NodeKind::MathBlock(s) => assert_eq!(
            s,
            "s=0.0001;tempo_us=max(C*16777216,1);dt_sec=1/50;dt_ticks=dt_sec*480*1000000/tempo_us;B=1-B;A*(Lval+dt_ticks/10)"
        ),
        _ => panic!("node 0 must be the driver expression"),
    }
    assert!(matches!(g.nodes[1].kind, NodeKind::Switch));
    assert_eq!(g.nodes[1].position, PositionHint::Switch);
    assert!(matches!(g.nodes[2].kind, NodeKind::OrGate));
    assert!(matches!(g.nodes[3].kind, NodeKind::OrGate));
    assert!(matches!(g.nodes[4].kind, NodeKind::OrGate));
    assert_eq!(g.nodes[0].out_edges, vec![2, 4]);
    assert_eq!(g.nodes[1].out_edges, vec![0]);
    assert_eq!(g.nodes[2].out_edges, vec![0]);
    assert_eq!(g.nodes[3].out_edges, vec![0]);
    assert_eq!(g.nodes[4].out_edges, vec![8, 9]);

    match &g.nodes[5].kind {
        NodeKind::MathBlock(s) => {
            assert!(s.starts_with("ind(8)=step(0.5,(A%1/2^0)*2^0)+step(1,A);"));
            assert!(s.ends_with("ind(1)=step(0.5,(A%1/2^7)*2^7)+step(1,A);0"));
        }
        _ => panic!("node 5 must be the decoder expression"),
    }
    assert!(matches!(g.nodes[6].kind, NodeKind::OrGate));
    assert_eq!(g.nodes[6].out_edges, vec![5]);
    match &g.nodes[7].kind {
        NodeKind::ToneGenerator(pitch) => assert_eq!(*pitch, 60),
        _ => panic!("node 7 must be a tone generator"),
    }
    assert_eq!(g.nodes[7].position, PositionHint::ToneGenerator);
    assert_eq!(g.nodes[5].out_edges, vec![7]);
    match &g.nodes[8].kind {
        NodeKind::MathBlock(s) => assert_eq!(
            s,
            "x=A*10;n=1*(step(0,x))+-1*(step(10,x))-0*step(11,x);n/256"
        ),
        _ => panic!("node 8 must be the channel data expression"),
    }
    assert_eq!(g.nodes[8].out_edges, vec![6]);
    match &g.nodes[9].kind {
        NodeKind::MathBlock(s) => assert_eq!(
            s,
            "x=A*10;n=120*(step(0,x))-120*step(4294967296,x);n/16777216"
        ),
        _ => panic!("node 9 must be the tempo expression"),
    }
    assert_eq!(g.nodes[9].out_edges, vec![3]);

    // Every edge stays inside the 16-bit node list.
    for node in &g.nodes {
        for e in &node.out_edges {
            assert!((*e as usize) < g.nodes.len());
        }
    }
}

#[test]
fn player_repeat_flag_wraps_the_phase() {
    let config = PlayerConfig {
        notes_per_value: 4,
        min_pitch: 0,
        max_pitch: 127,
        min_velocity: 0,
        repeat: true,
        max_events_per_func: 16,
    };
    let g = generate_music_player(
        &vec![],
        &vec![],
        InputTiming::PerQuarterNote(96),
        7,
        &config,
    )
    .unwrap();
    match &g.nodes[0].kind {
        NodeKind::MathBlock(s) => assert!(s.ends_with("A*(Lval+dt_ticks/7)%1")),
        _ => panic!("node 0 must be the driver expression"),
    }
}

#[test]
fn player_rejects_oversized_node_totals() {
    // With a one-term cap, every tempo change becomes its own function
    // node; seventy thousand of them cannot fit the 16-bit index space,
    // so the assembly reports the capped total and emits nothing.
    let mut tempo: Vec<(u32, u32)> = Vec::new();
    for i in 0..70000u32 {
        tempo.push((i + 1, if i % 2 == 0 { 100 } else { 200 }));
    }
    let config = PlayerConfig {
        notes_per_value: 8,
        min_pitch: 0,
        max_pitch: 127,
        min_velocity: 0,
        repeat: false,
        max_events_per_func: 1,
    };
    match generate_music_player(&vec![], &tempo, InputTiming::PerQuarterNote(480), 10, &config) {
        Err(Error::IntegerNarrowing { count, bound }) => {
            assert_eq!(count, 65537);
            assert_eq!(bound, 65536);
        }
        _ => panic!("a node total beyond the index space must be rejected"),
    }
}
