use equi_join::args::{JoinArgs, JoinType, MaintainOrder, PortState};
use equi_join::driver::run_join;
use equi_join::frame::Frame;
use equi_join::morsel::Morsel;
use equi_join::node::{EquiJoinNode, EquiJoinState};

fn b(s: &str) -> Vec<u8> {
    s.as_bytes().to_vec()
}

fn schema(names: &[&str]) -> Vec<Vec<u8>> {
    names.iter().map(|n| b(n)).collect()
}

fn mk_frame(names: &[&str], rows: Vec<Vec<Option<i64>>>) -> Frame {
    Frame { names: schema(names), rows }
}

fn mk_args(how: JoinType, coalesce: bool, nulls_equal: bool, mo: MaintainOrder) -> JoinArgs {
    JoinArgs { how, suffix: b("_right"), coalesce, nulls_equal, maintain_order: mo }
}

fn mk_node(
    lcols: &[&str],
    rcols: &[&str],
    lkey: &[&str],
    rkey: &[&str],
    lkidx: Vec<usize>,
    rkidx: Vec<usize>,
    args: JoinArgs,
    sample_limit: usize,
) -> EquiJoinNode {
    EquiJoinNode::new(
        schema(lcols),
        schema(rcols),
        schema(lkey),
        schema(rkey),
        lkidx,
        rkidx,
        args,
        sample_limit,
        4,
    )
    .ok()
    .expect("construction should succeed")
}

fn all_rows(frames: &[Frame]) -> Vec<Vec<Option<i64>>> {
    let mut out = Vec::new();
    for f in frames {
        for r in &f.rows {
            out.push(r.clone());
        }
    }
    out
}

fn sorted(mut rows: Vec<Vec<Option<i64>>>) -> Vec<Vec<Option<i64>>> {
    rows.sort();
    rows
}

#[test]
fn basic_inner_join() {
    let node = mk_node(
        &["k", "v"],
        &["k", "w"],
        &["k"],
        &["k"],
        vec![0],
        vec![0],
        mk_args(JoinType::Inner, false, false, MaintainOrder::NoOrder),
        1000,
    );
    let left = vec![Morsel {
        df: mk_frame(
            &["k", "v"],
            vec![
                vec![Some(1), Some(97)],
                vec![Some(2), Some(98)],
                vec![Some(3), Some(99)],
            ],
        ),
        seq: 0,
    }];
    let right = vec![Morsel {
        df: mk_frame(
            &["k", "w"],
            vec![
                vec![Some(2), Some(120)],
                vec![Some(3), Some(121)],
                vec![Some(4), Some(122)],
            ],
        ),
        seq: 0,
    }];
    let out = run_join(&node.params, left, right, 3, 1000, 4);
    // Output columns are k, v, k_right, w in some row order.
    let got = sorted(all_rows(&out));
    let want = sorted(vec![
        vec![Some(2), Some(98), Some(2), Some(120)],
        vec![Some(3), Some(99), Some(3), Some(121)],
    ]);
    assert_eq!(got, want);
}

#[test]
fn full_outer_with_coalesce() {
    let node = mk_node(
        &["k", "v"],
        &["k", "w"],
        &["k"],
        &["k"],
        vec![0],
        vec![0],
        mk_args(JoinType::Full, true, false, MaintainOrder::NoOrder),
        1000,
    );
    let left = vec![Morsel {
        df: mk_frame(
            &["k", "v"],
            vec![vec![Some(1), Some(97)], vec![Some(2), Some(98)]],
        ),
        seq: 0,
    }];
    let right = vec![Morsel {
        df: mk_frame(
            &["k", "w"],
            vec![vec![Some(2), Some(120)], vec![Some(3), Some(122)]],
        ),
        seq: 0,
    }];
    let out = run_join(&node.params, left, right, 3, 1000, 4);
    // Output columns after coalescing are k, v, w.
    let got = sorted(all_rows(&out));
    let want = sorted(vec![
        vec![Some(1), Some(97), None],
        vec![Some(2), Some(98), Some(120)],
        vec![Some(3), None, Some(122)],
    ]);
    assert_eq!(got, want);
    for f in &out {
        assert_eq!(f.names, schema(&["k", "v", "w"]));
    }
}

#[test]
fn left_outer_order_preserving() {
    let node = mk_node(
        &["k"],
        &["k", "w"],
        &["k"],
        &["k"],
        vec![0],
        vec![0],
        mk_args(JoinType::Left, false, false, MaintainOrder::Left),
        1000,
    );
    assert_eq!(node.params.left_is_build, Some(false));
    assert!(node.params.preserve_order_probe);
    let left = vec![Morsel {
        df: mk_frame(&["k"], vec![vec![Some(1)], vec![Some(2)], vec![Some(1)]]),
        seq: 0,
    }];
    let right = vec![Morsel {
        df: mk_frame(
            &["k", "w"],
            vec![
                vec![Some(1), Some(97)],
                vec![Some(1), Some(98)],
                vec![Some(3), Some(99)],
            ],
        ),
        seq: 0,
    }];
    let out = run_join(&node.params, left, right, 3, 1000, 4);
    // Output columns are k, k_right, w; rows in exact probe order.
    let got = all_rows(&out);
    let want = vec![
        vec![Some(1), Some(1), Some(97)],
        vec![Some(1), Some(1), Some(98)],
        vec![Some(2), None, None],
        vec![Some(1), Some(1), Some(97)],
        vec![Some(1), Some(1), Some(98)],
    ];
    assert_eq!(got, want);
}

#[test]
fn null_keys_unequal_and_equal() {
    // nulls_equal = false: the null keys cannot match.
    let node = mk_node(
        &["k"],
        &["k"],
        &["k"],
        &["k"],
        vec![0],
        vec![0],
        mk_args(JoinType::Inner, false, false, MaintainOrder::NoOrder),
        1000,
    );
    let left = vec![Morsel {
        df: mk_frame(&["k"], vec![vec![None], vec![Some(1)]]),
        seq: 0,
    }];
    let right = vec![Morsel {
        df: mk_frame(&["k"], vec![vec![None], vec![Some(1)]]),
        seq: 0,
    }];
    let out = run_join(&node.params, left, right, 3, 1000, 4);
    let got = sorted(all_rows(&out));
    assert_eq!(got, vec![vec![Some(1), Some(1)]]);

    // nulls_equal = true: the null keys match each other.
    let node2 = mk_node(
        &["k"],
        &["k"],
        &["k"],
        &["k"],
        vec![0],
        vec![0],
        mk_args(JoinType::Inner, false, true, MaintainOrder::NoOrder),
        1000,
    );
    let left2 = vec![Morsel {
        df: mk_frame(&["k"], vec![vec![None], vec![Some(1)]]),
        seq: 0,
    }];
    let right2 = vec![Morsel {
        df: mk_frame(&["k"], vec![vec![None], vec![Some(1)]]),
        seq: 0,
    }];
    let out2 = run_join(&node2.params, left2, right2, 3, 1000, 4);
    let got2 = sorted(all_rows(&out2));
    assert_eq!(got2, sorted(vec![vec![None, None], vec![Some(1), Some(1)]]));
}

#[test]
fn suffix_collision_is_duplicate_error() {
    let r = EquiJoinNode::new(
        schema(&["k", "v"]),
        schema(&["k", "v", "v_right"]),
        schema(&["k"]),
        schema(&["k"]),
        vec![0],
        vec![0],
        mk_args(JoinType::Inner, false, false, MaintainOrder::NoOrder),
        1000,
        4,
    );
    match r {
        Err(equi_join::args::JoinError::Duplicate(name)) => {
            assert_eq!(name, b("v_right"));
        },
        Ok(_) => panic!("expected a duplicate-column error"),
    }
}

#[test]
fn empty_right_side_inner_and_left() {
    // Inner join with an empty right side: empty output.
    let node = mk_node(
        &["k", "v"],
        &["k", "w"],
        &["k"],
        &["k"],
        vec![0],
        vec![0],
        mk_args(JoinType::Inner, false, false, MaintainOrder::NoOrder),
        1000,
    );
    let left = vec![Morsel {
        df: mk_frame(&["k", "v"], vec![vec![Some(1), Some(97)]]),
        seq: 0,
    }];
    let out = run_join(&node.params, left, Vec::new(), 3, 1000, 4);
    assert!(all_rows(&out).is_empty());

    // Left join with an empty right side: every left row, null-padded.
    let node2 = mk_node(
        &["k", "v"],
        &["k", "w"],
        &["k"],
        &["k"],
        vec![0],
        vec![0],
        mk_args(JoinType::Left, false, false, MaintainOrder::NoOrder),
        1000,
    );
    let left2 = vec![Morsel {
        df: mk_frame(
            &["k", "v"],
            vec![vec![Some(1), Some(97)], vec![Some(2), Some(98)]],
        ),
        seq: 0,
    }];
    let out2 = run_join(&node2.params, left2, Vec::new(), 3, 1000, 4);
    let got2 = sorted(all_rows(&out2));
    let want2 = sorted(vec![
        vec![Some(1), Some(97), None, None],
        vec![Some(2), Some(98), None, None],
    ]);
    assert_eq!(got2, want2);
}

#[test]
fn all_null_keys_left_join() {
    let node = mk_node(
        &["k"],
        &["k"],
        &["k"],
        &["k"],
        vec![0],
        vec![0],
        mk_args(JoinType::Left, false, false, MaintainOrder::NoOrder),
        1000,
    );
    let left = vec![Morsel {
        df: mk_frame(&["k"], vec![vec![None], vec![None]]),
        seq: 0,
    }];
    let right = vec![Morsel {
        df: mk_frame(&["k"], vec![vec![None]]),
        seq: 0,
    }];
    let out = run_join(&node.params, left, right, 3, 1000, 4);
    let got = sorted(all_rows(&out));
    assert_eq!(got, vec![vec![None, None], vec![None, None]]);
}

#[test]
fn unmatched_build_rows_are_emitted() {
    // maintain_order = Right fixes the left side as build; a Left join then
    // owes the unmatched left rows after probing.
    let node = mk_node(
        &["k", "v"],
        &["k", "w"],
        &["k"],
        &["k"],
        vec![0],
        vec![0],
        mk_args(JoinType::Left, false, false, MaintainOrder::Right),
        1000,
    );
    assert_eq!(node.params.left_is_build, Some(true));
    let left = vec![Morsel {
        df: mk_frame(
            &["k", "v"],
            vec![vec![Some(1), Some(97)], vec![Some(2), Some(98)]],
        ),
        seq: 0,
    }];
    let right = vec![Morsel {
        df: mk_frame(&["k", "w"], vec![vec![Some(1), Some(120)]]),
        seq: 0,
    }];
    let out = run_join(&node.params, left, right, 3, 1000, 4);
    let got = sorted(all_rows(&out));
    let want = sorted(vec![
        vec![Some(1), Some(97), Some(1), Some(120)],
        vec![Some(2), Some(98), None, None],
    ]);
    assert_eq!(got, want);
}

#[test]
fn inner_join_is_symmetric_up_to_order() {
    let args = mk_args(JoinType::Inner, false, false, MaintainOrder::NoOrder);
    let node = mk_node(
        &["k", "v"],
        &["k", "w"],
        &["k"],
        &["k"],
        vec![0],
        vec![0],
        args.clone(),
        1000,
    );
    let l_rows = vec![
        vec![Some(1), Some(10)],
        vec![Some(2), Some(20)],
        vec![Some(2), Some(21)],
    ];
    let r_rows = vec![vec![Some(2), Some(30)], vec![Some(3), Some(31)]];
    let left = vec![Morsel { df: mk_frame(&["k", "v"], l_rows.clone()), seq: 0 }];
    let right = vec![Morsel { df: mk_frame(&["k", "w"], r_rows.clone()), seq: 0 }];
    let out_ab = run_join(&node.params, left, right, 3, 1000, 4);

    let node2 = mk_node(
        &["k", "w"],
        &["k", "v"],
        &["k"],
        &["k"],
        vec![0],
        vec![0],
        args,
        1000,
    );
    let left2 = vec![Morsel { df: mk_frame(&["k", "w"], r_rows), seq: 0 }];
    let right2 = vec![Morsel { df: mk_frame(&["k", "v"], l_rows), seq: 0 }];
    let out_ba = run_join(&node2.params, left2, right2, 3, 1000, 4);

    // Reorder the columns of the swapped join (k, w, k_right, v) into the
    // first join's layout (k, v, k_right, w) and compare as multisets.
    let rows_ab = sorted(all_rows(&out_ab));
    let rows_ba: Vec<Vec<Option<i64>>> = all_rows(&out_ba)
        .into_iter()
        .map(|r| vec![r[0], r[3], r[2], r[1]])
        .collect();
    assert_eq!(rows_ab, sorted(rows_ba));
}

#[test]
fn full_join_order_preserved_unmatched_build() {
    // maintain_order = LeftRight: the right side builds, both probe and
    // build order are preserved; a full join owes the unmatched right rows
    // after all left rows, in right-ingestion order.
    let node = mk_node(
        &["k", "v"],
        &["k", "w"],
        &["k"],
        &["k"],
        vec![0],
        vec![0],
        mk_args(JoinType::Full, false, false, MaintainOrder::LeftRight),
        1000,
    );
    assert_eq!(node.params.left_is_build, Some(false));
    assert!(node.params.preserve_order_build);
    // The mirrored order argument fixes the left side as build instead.
    let mirrored = mk_node(
        &["k", "v"],
        &["k", "w"],
        &["k"],
        &["k"],
        vec![0],
        vec![0],
        mk_args(JoinType::Full, false, false, MaintainOrder::RightLeft),
        1000,
    );
    assert_eq!(mirrored.params.left_is_build, Some(true));
    assert!(mirrored.params.preserve_order_build);
    assert!(mirrored.params.preserve_order_probe);
    let left = vec![Morsel {
        df: mk_frame(&["k", "v"], vec![vec![Some(1), Some(97)]]),
        seq: 0,
    }];
    let right = vec![
        Morsel { df: mk_frame(&["k", "w"], vec![vec![Some(2), Some(121)]]), seq: 0 },
        Morsel {
            df: mk_frame(
                &["k", "w"],
                vec![vec![Some(1), Some(120)], vec![Some(3), Some(122)]],
            ),
            seq: 1,
        },
    ];
    let out = run_join(&node.params, left, right, 3, 1000, 4);
    let got = all_rows(&out);
    // Probe output first (the matched left row), then the unmatched right
    // rows sorted by their origin morsel order.
    let want = vec![
        vec![Some(1), Some(97), Some(1), Some(120)],
        vec![None, None, Some(2), Some(121)],
        vec![None, None, Some(3), Some(122)],
    ];
    assert_eq!(got, want);
}

#[test]
fn node_probes_and_drains_unmatched() {
    // A zero sample limit starts building at once with the left side.
    let mut node = mk_node(
        &["k", "v"],
        &["k", "w"],
        &["k"],
        &["k"],
        vec![0],
        vec![0],
        mk_args(JoinType::Left, false, false, MaintainOrder::NoOrder),
        0,
    );
    node.initialize(2);
    node.sink_build_morsel(Morsel {
        df: mk_frame(
            &["k", "v"],
            vec![vec![Some(1), Some(97)], vec![Some(2), Some(98)]],
        ),
        seq: 0,
    });
    let _ = node.update_state(PortState::Done, PortState::Ready, PortState::Ready);
    assert!(matches!(node.state, EquiJoinState::Probe(_)));
    let frames = node.process_probe_morsel(&Morsel {
        df: mk_frame(&["k", "w"], vec![vec![Some(1), Some(120)]]),
        seq: 0,
    });
    assert_eq!(
        sorted(all_rows(&frames)),
        vec![vec![Some(1), Some(97), Some(1), Some(120)]]
    );
    // The probe input is done: the node owes the unmatched left row.
    let (_, _, s) = node.update_state(PortState::Done, PortState::Done, PortState::Ready);
    assert!(matches!(node.state, EquiJoinState::EmitUnmatchedBuild(_)));
    assert_eq!(s, PortState::Ready);
    let m = node.next_unmatched_morsel().expect("one unmatched morsel");
    assert_eq!(m.seq, 1);
    assert_eq!(m.df.rows, vec![vec![Some(2), Some(98), None, None]]);
    assert!(node.next_unmatched_morsel().is_none());
    let _ = node.update_state(PortState::Done, PortState::Done, PortState::Ready);
    assert!(matches!(node.state, EquiJoinState::Done));
}
