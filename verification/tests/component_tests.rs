use equi_join::args::{JoinArgs, JoinType, MaintainOrder, PortState};
use equi_join::buffered::BufferedStream;
use equi_join::emit::{div_ceil_pos, morsel_size_for};
use equi_join::frame::Frame;
use equi_join::keys::{distinct_keys_exec, key_hash, keys_match_exec, partition_of_exec};
use equi_join::morsel::Morsel;
use equi_join::names::{digits_of, has_coalesce_prefix, placeholder_name};
use equi_join::node::{EquiJoinNode, EquiJoinState};
use equi_join::ordered::sort_unmatched;
use equi_join::sample::{choose_build_side, estimate_cardinality, stop_sampling};
use equi_join::selector::compute_payload_selector;
use equi_join::table::UnmatchedRow;

fn b(s: &str) -> Vec<u8> {
    s.as_bytes().to_vec()
}

fn schema(names: &[&str]) -> Vec<Vec<u8>> {
    names.iter().map(|n| b(n)).collect()
}

fn mk_args(how: JoinType, coalesce: bool) -> JoinArgs {
    JoinArgs {
        how,
        suffix: b("_right"),
        coalesce,
        nulls_equal: false,
        maintain_order: MaintainOrder::NoOrder,
    }
}

#[test]
fn zero_sample_limit_starts_building_with_left_build() {
    let node = EquiJoinNode::new(
        schema(&["k"]),
        schema(&["k"]),
        schema(&["k"]),
        schema(&["k"]),
        vec![0],
        vec![0],
        mk_args(JoinType::Inner, false),
        0,
        4,
    )
    .ok()
    .expect("construction should succeed");
    assert_eq!(node.params.left_is_build, Some(true));
    assert!(matches!(node.state, EquiJoinState::Build(_)));
    assert!(node.is_memory_intensive_pipeline_blocker());
}

#[test]
fn positive_sample_limit_starts_sampling() {
    let node = EquiJoinNode::new(
        schema(&["k"]),
        schema(&["k"]),
        schema(&["k"]),
        schema(&["k"]),
        vec![0],
        vec![0],
        mk_args(JoinType::Inner, false),
        100,
        4,
    )
    .ok()
    .expect("construction should succeed");
    assert_eq!(node.params.left_is_build, None);
    assert!(matches!(node.state, EquiJoinState::Sample(_)));
}

#[test]
fn done_output_port_stops_the_node() {
    let mut node = EquiJoinNode::new(
        schema(&["k"]),
        schema(&["k"]),
        schema(&["k"]),
        schema(&["k"]),
        vec![0],
        vec![0],
        mk_args(JoinType::Inner, false),
        0,
        4,
    )
    .ok()
    .expect("construction should succeed");
    node.initialize(2);
    let (rl, rr, s) = node.update_state(PortState::Ready, PortState::Ready, PortState::Done);
    assert!(matches!(node.state, EquiJoinState::Done));
    assert_eq!((rl, rr, s), (PortState::Done, PortState::Done, PortState::Done));
}

#[test]
fn build_then_probe_transition() {
    let mut node = EquiJoinNode::new(
        schema(&["k"]),
        schema(&["k"]),
        schema(&["k"]),
        schema(&["k"]),
        vec![0],
        vec![0],
        mk_args(JoinType::Inner, false),
        0,
        4,
    )
    .ok()
    .expect("construction should succeed");
    node.initialize(2);
    node.sink_build_morsel(Morsel {
        df: Frame { names: schema(&["k"]), rows: vec![vec![Some(1)]] },
        seq: 0,
    });
    // Build input still open: the build port is ready, the output blocked.
    let (rl, _rr, s) = node.update_state(PortState::Ready, PortState::Blocked, PortState::Blocked);
    assert!(matches!(node.state, EquiJoinState::Build(_)));
    assert_eq!(rl, PortState::Ready);
    assert_eq!(s, PortState::Blocked);
    // Build input done, probe input still open: probing starts.
    let (rl2, _rr2, _s2) =
        node.update_state(PortState::Done, PortState::Ready, PortState::Blocked);
    assert!(matches!(node.state, EquiJoinState::Probe(_)));
    assert_eq!(rl2, PortState::Done);
    // Probe input done as well: an inner join has nothing left to emit.
    let _ = node.update_state(PortState::Done, PortState::Done, PortState::Blocked);
    assert!(matches!(node.state, EquiJoinState::Done));
}

#[test]
fn sampling_transitions_to_build_when_both_sides_done() {
    let mut node = EquiJoinNode::new(
        schema(&["k"]),
        schema(&["k"]),
        schema(&["k"]),
        schema(&["k"]),
        vec![0],
        vec![0],
        mk_args(JoinType::Inner, false),
        100,
        4,
    )
    .ok()
    .expect("construction should succeed");
    node.initialize(2);
    let stop = node.sink_left_sample(
        Morsel { df: Frame { names: schema(&["k"]), rows: vec![vec![Some(1)]] }, seq: 0 },
        usize::MAX,
    );
    assert!(!stop);
    let _ = node.sink_right_sample(
        Morsel {
            df: Frame { names: schema(&["k"]), rows: vec![vec![Some(1)], vec![Some(2)]] },
            seq: 0,
        },
        usize::MAX,
    );
    let (_rl, _rr, s) = node.update_state(PortState::Done, PortState::Done, PortState::Blocked);
    // Both inputs are done: sampling decided and building began; with both
    // inputs closed the node cascades into probing.
    assert!(matches!(node.state, EquiJoinState::Probe(_)) || matches!(node.state, EquiJoinState::Done));
    assert_ne!(s, PortState::Blocked);
}

#[test]
fn lopsided_sample_chooses_smaller_side_without_estimates() {
    // One side saturated the sample limit, the other is done: the bounded
    // side builds, no estimate needed.
    assert_eq!(choose_build_side(false, true, 1_000_000, 20_000_000, None), true);
    assert_eq!(choose_build_side(true, false, 20_000_000, 1_000_000, None), false);
    // Strongly imbalanced below the limit: the smaller side builds.
    assert_eq!(choose_build_side(false, false, 5, 100, None), true);
    assert_eq!(choose_build_side(false, false, 100, 5, None), false);
}

#[test]
fn balanced_sample_uses_cost_model() {
    // Equal lengths: the side with fewer distinct keys builds.
    assert_eq!(choose_build_side(false, false, 100, 100, Some((5, 50))), true);
    assert_eq!(choose_build_side(false, false, 100, 100, Some((50, 5))), false);
    // Both saturated: smaller estimate builds.
    assert_eq!(choose_build_side(true, true, 100, 100, Some((7, 9))), true);
    assert_eq!(choose_build_side(true, true, 100, 100, Some((9, 7))), false);
}

#[test]
fn sampling_stops_when_lopsided_at_done() {
    // Right side done at 10 rows, left reached ten times that.
    assert!(stop_sampling(false, true, 100, 10, 1000));
    // Neither done nor lopsided: keep sampling.
    assert!(!stop_sampling(false, false, 50, 60, 1000));
    // Both done.
    assert!(stop_sampling(true, true, 3, 4, 1000));
}

#[test]
fn cardinality_estimate_extrapolates() {
    let m = Morsel {
        df: Frame {
            names: schema(&["k"]),
            rows: vec![vec![Some(1)], vec![Some(2)], vec![Some(1)], vec![Some(2)]],
        },
        seq: 0,
    };
    // Two distinct keys over four sampled rows; the true length equals the
    // sample, so no scaling.
    assert_eq!(estimate_cardinality(&vec![m], &vec![0], 4, 100), 2);
    let m2 = Morsel {
        df: Frame {
            names: schema(&["k"]),
            rows: vec![vec![Some(1)], vec![Some(2)]],
        },
        seq: 0,
    };
    // Two distinct keys in a sample capped at two rows of a six-row side:
    // scaled by three.
    assert_eq!(estimate_cardinality(&vec![m2], &vec![0], 6, 2), 6);
}

#[test]
fn distinct_key_count() {
    let keys = vec![
        vec![Some(1)],
        vec![Some(2)],
        vec![Some(1)],
        vec![None],
        vec![None],
    ];
    assert_eq!(distinct_keys_exec(&keys), 3);
}

#[test]
fn matching_keys_share_a_partition() {
    let a = vec![Some(7), Some(-3)];
    let a2 = vec![Some(7), Some(-3)];
    assert!(keys_match_exec(&a, &a2, false));
    assert_eq!(key_hash(&a), key_hash(&a2));
    for n in [1usize, 2, 3, 7] {
        assert_eq!(partition_of_exec(&a, n), partition_of_exec(&a2, n));
    }
}

#[test]
fn selector_renames_and_reserves_placeholders() {
    let args = mk_args(JoinType::Full, true);
    // Right side of a coalescing full join: the key column becomes the
    // reserved placeholder, a clashing payload column gets the suffix.
    let sel = compute_payload_selector(
        &schema(&["k", "v"]),
        &schema(&["k", "v"]),
        &schema(&["k"]),
        false,
        &args,
    )
    .ok()
    .expect("no collision here");
    assert_eq!(sel[0].clone().unwrap(), placeholder_name(0));
    assert_eq!(sel[1].clone().unwrap(), b("v_right"));
    assert!(has_coalesce_prefix(&placeholder_name(0)));
    assert!(!has_coalesce_prefix(&b("k")));
}

#[test]
fn decimal_digits_render() {
    assert_eq!(digits_of(0), b("0"));
    assert_eq!(digits_of(7), b("7"));
    assert_eq!(digits_of(120), b("120"));
}

#[test]
fn buffered_stream_relabels_and_prefixes() {
    let mk = |seq: u64| Morsel {
        df: Frame { names: schema(&["k"]), rows: vec![vec![Some(seq as i64)]] },
        seq,
    };
    let buf = BufferedStream::new(vec![mk(40), mk(41)], 0);
    assert!(!buf.is_empty());
    assert_eq!(buf.post_buffer_offset, 2);
    let combined = buf.reinsert(vec![mk(0), mk(5)]);
    let seqs: Vec<u64> = combined.iter().map(|m| m.seq).collect();
    assert_eq!(seqs, vec![0, 1, 2, 7]);
}

#[test]
fn unmatched_sorting_is_by_seq_then_idx() {
    let mk = |seq: u64, idx: usize| UnmatchedRow { seq, idx, row: vec![Some(idx as i64)] };
    let sorted = sort_unmatched(vec![mk(2, 0), mk(0, 1), mk(0, 0), mk(1, 5)]);
    let tags: Vec<(u64, usize)> = sorted.iter().map(|u| (u.seq, u.idx)).collect();
    assert_eq!(tags, vec![(0, 0), (0, 1), (1, 5), (2, 0)]);
}

#[test]
fn morsel_sizing_formulas() {
    assert_eq!(div_ceil_pos(7, 3), 3);
    assert_eq!(div_ceil_pos(6, 3), 2);
    assert_eq!(div_ceil_pos(0, 3), 0);
    // Ten rows, ideal size four, two pipelines: two morsels of five.
    assert_eq!(morsel_size_for(10, 4, 2), 5);
    // A tiny total still gets a morsel of at least one row.
    assert_eq!(morsel_size_for(0, 4, 2), 1);
}
