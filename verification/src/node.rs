//! The join node's state machine.
//!
//! The node moves through sampling, building, probing and unmatched-row
//! emission, driven by the port states the scheduler reports each tick. The
//! output port is blocked until probing starts, mirrors the probe input
//! while probing, and is ready while unmatched rows drain; when the output
//! port reports done, the node stops at once.

use vstd::prelude::*;

use crate::args::JoinArgs;
use crate::args::JoinError;
use crate::args::MaintainOrder;
use crate::args::PortState;
use crate::buffered::BufferedStream;
use crate::coalesce::coalesce_ok;
use crate::driver::build_tables;
use crate::driver::out_schema;
use crate::driver::payload_rows;
use crate::driver::postprocessed;
use crate::driver::postprocess_morsels;
use crate::driver::side_morsels_wf;
use crate::driver::spec_emit_build;
use crate::driver::spec_emit_probe;
use crate::driver::spec_probe_order;
use crate::driver::spec_side_card;
use crate::driver::EquiJoinParams;
use crate::emit::all_unmatched;
use crate::emit::emit_unmatched_guarded;
use crate::emit::morsel_size_for;
use crate::emit::morsels_rows;
use crate::emit::padded_unmatched;
use crate::frame::rows_view;
use crate::frame::Cell;
use crate::frame::Frame;
use crate::keys::keys_of_frame;
use crate::keys::select_keys;
use crate::morsel::morsel_rows;
use crate::morsel::Morsel;
use crate::names::concat_name_lists;
use crate::names::names_view;
use crate::probe::probe_rows;
use crate::probe::rows_for_order;
use crate::probe::tables_partitioned;
use crate::sample::choose_build_side;
use crate::sample::estimate_cardinality;
use crate::sample::needs_estimate;
use crate::sample::sat_add;
use crate::sample::sink_morsel;
use crate::sample::spec_choose_build_side;
use crate::sample::spec_stop_sampling;
use crate::sample::stop_sampling;
use crate::sample::SampleState;
use crate::sample::LOPSIDED_FACTOR;
use crate::selector::compute_payload_selector;
use crate::selector::entry_collides;
use crate::selector::select_schema;
use crate::selector::selected_names;
use crate::selector::selector_entry;
use crate::selector::sel_view;
use crate::table::ProbeTable;

verus! {

/// Accumulated build-side morsels and the buffered probe-side sample.
pub struct BuildState {
    pub morsels: Vec<Morsel>,
    pub sampled_probe_morsels: BufferedStream,
}

/// The materialized tables, the largest probe sequence number sent, and the
/// buffered probe-side sample awaiting replay.
pub struct ProbeState {
    pub table_per_partition: Vec<ProbeTable>,
    pub max_seq_sent: u64,
    pub sampled_probe_morsels: BufferedStream,
}

/// Unmatched-row morsels being drained.
pub struct EmitUnmatchedState {
    pub morsels: Vec<Morsel>,
    pub next: usize,
}

/// An in-memory source of order-preserved unmatched morsels.
pub struct InMemorySource {
    pub morsels: Vec<Morsel>,
    pub next: usize,
}

/// The phases of the join node.
pub enum EquiJoinState {
    Sample(SampleState),
    Build(BuildState),
    Probe(ProbeState),
    EmitUnmatchedBuild(EmitUnmatchedState),
    EmitUnmatchedBuildInOrder(InMemorySource),
    Done,
}

/// The join node.
pub struct EquiJoinNode {
    pub state: EquiJoinState,
    pub params: EquiJoinParams,
    pub num_pipelines: usize,
    pub sample_limit: usize,
    pub ideal_morsel_size: usize,
}

/// Width of the build side's input schema.
pub open spec fn build_input_width(params: &EquiJoinParams, lib: bool) -> nat {
    if lib {
        params.left_input_schema@.len()
    } else {
        params.right_input_schema@.len()
    }
}

/// Width of the probe side's input schema.
pub open spec fn probe_input_width(params: &EquiJoinParams, lib: bool) -> nat {
    if lib {
        params.right_input_schema@.len()
    } else {
        params.left_input_schema@.len()
    }
}

/// Width of the build side's payload.
pub open spec fn build_payload_width(params: &EquiJoinParams, lib: bool) -> nat {
    if lib {
        params.left_payload_schema@.len()
    } else {
        params.right_payload_schema@.len()
    }
}

/// Width of the probe side's payload.
pub open spec fn probe_payload_width(params: &EquiJoinParams, lib: bool) -> nat {
    if lib {
        params.right_payload_schema@.len()
    } else {
        params.left_payload_schema@.len()
    }
}

/// Two parameter records that agree on everything but the settled build
/// side.
pub open spec fn same_config(a: &EquiJoinParams, b: &EquiJoinParams) -> bool {
    &&& a.preserve_order_build == b.preserve_order_build
    &&& a.preserve_order_probe == b.preserve_order_probe
    &&& a.left_input_schema@ == b.left_input_schema@
    &&& a.right_input_schema@ == b.right_input_schema@
    &&& a.left_key_schema@ == b.left_key_schema@
    &&& a.right_key_schema@ == b.right_key_schema@
    &&& a.left_key_idxs@ == b.left_key_idxs@
    &&& a.right_key_idxs@ == b.right_key_idxs@
    &&& a.left_payload_select@ == b.left_payload_select@
    &&& a.right_payload_select@ == b.right_payload_select@
    &&& a.left_payload_schema@ == b.left_payload_schema@
    &&& a.right_payload_schema@ == b.right_payload_schema@
    &&& a.args == b.args
}

/// The port an input shows while sampling: done stays done, otherwise ready
/// below the sample limit and blocked at it.
pub open spec fn spec_sample_port(recv: PortState, len: int, limit: int) -> PortState {
    if recv is Done {
        PortState::Done
    } else if len < limit {
        PortState::Ready
    } else {
        PortState::Blocked
    }
}

/// The port triple while building: the build input is ready until done, the
/// probe input blocked until done, the output blocked.
pub open spec fn spec_build_ports(lib: bool, recv_left: PortState, recv_right: PortState) -> (
    PortState,
    PortState,
    PortState,
) {
    let build_in = if lib {
        recv_left
    } else {
        recv_right
    };
    let probe_in = if lib {
        recv_right
    } else {
        recv_left
    };
    let b = if build_in is Done {
        PortState::Done
    } else {
        PortState::Ready
    };
    let p = if probe_in is Done {
        PortState::Done
    } else {
        PortState::Blocked
    };
    if lib {
        (b, p, PortState::Blocked)
    } else {
        (p, b, PortState::Blocked)
    }
}

/// The port triple while probing: the output mirrors the probe input; once
/// the probe input is done the output stays ready until the replay buffer
/// drains; the build input is done.
pub open spec fn spec_probe_ports(
    lib: bool,
    recv_left: PortState,
    recv_right: PortState,
    send: PortState,
    sampled_empty: bool,
) -> (PortState, PortState, PortState) {
    let probe_in = if lib {
        recv_right
    } else {
        recv_left
    };
    let new_probe = if !(probe_in is Done) {
        send
    } else {
        PortState::Done
    };
    let new_send = if !(probe_in is Done) {
        probe_in
    } else if sampled_empty {
        PortState::Done
    } else {
        PortState::Ready
    };
    if lib {
        (PortState::Done, new_probe, new_send)
    } else {
        (new_probe, PortState::Done, new_send)
    }
}

/// The build side the sampling phase settles on, from the buffered state.
pub open spec fn spec_sample_choice(s: &SampleState, params: &EquiJoinParams, limit: int) -> bool {
    spec_choose_build_side(
        s.left_len as int >= limit,
        s.right_len as int >= limit,
        s.left_len as int,
        s.right_len as int,
        spec_side_card(s.left@, params.left_key_idxs@, s.left_len as int, limit),
        spec_side_card(s.right@, params.right_key_idxs@, s.right_len as int, limit),
    )
}

impl EquiJoinNode {
    /// The node's invariant, phase by phase.
    pub open spec fn wf(&self) -> bool {
        &&& self.params.wf()
        &&& 1 <= self.ideal_morsel_size <= 0xFFFF_FFFF
        &&& match self.state {
            EquiJoinState::Sample(ref s) => {
                &&& self.sample_limit > 0
                &&& self.params.left_is_build is None
                &&& side_morsels_wf(s.left@, self.params.left_input_schema@.len() as nat)
                &&& side_morsels_wf(s.right@, self.params.right_input_schema@.len() as nat)
            },
            EquiJoinState::Build(ref b) => {
                &&& self.params.left_is_build is Some
                &&& side_morsels_wf(
                    b.morsels@,
                    build_input_width(&self.params, self.params.left_is_build.unwrap()),
                )
                &&& b.sampled_probe_morsels.wf()
                &&& side_morsels_wf(
                    b.sampled_probe_morsels.morsels@,
                    probe_input_width(&self.params, self.params.left_is_build.unwrap()),
                )
            },
            EquiJoinState::Probe(ref ps) => {
                &&& self.params.left_is_build is Some
                &&& ps.table_per_partition@.len() == self.num_pipelines
                &&& tables_partitioned(ps.table_per_partition@)
                &&& forall|q: int|
                    0 <= q < ps.table_per_partition@.len() ==> (
                    #[trigger] ps.table_per_partition@[q]).wf()
                &&& forall|q: int|
                    0 <= q < ps.table_per_partition@.len() ==> (
                    #[trigger] ps.table_per_partition@[q]).names@.len() == build_payload_width(
                        &self.params,
                        self.params.left_is_build.unwrap(),
                    )
                &&& ps.max_seq_sent < u64::MAX
                &&& ps.sampled_probe_morsels.wf()
                &&& side_morsels_wf(
                    ps.sampled_probe_morsels.morsels@,
                    probe_input_width(&self.params, self.params.left_is_build.unwrap()),
                )
            },
            EquiJoinState::EmitUnmatchedBuild(ref e) => e.next <= e.morsels@.len(),
            EquiJoinState::EmitUnmatchedBuildInOrder(ref src) => src.next <= src.morsels@.len(),
            EquiJoinState::Done => true,
        }
    }

    /// Builds a join node: computes both payload selectors and the payload
    /// schemas, fixes the build side when the order arguments or a zero
    /// sample limit decide it, and starts in the matching phase. Fails
    /// exactly when a renamed right-hand column's suffixed name collides; on
    /// success no column collides.
    pub fn new(
        left_input_schema: Vec<Vec<u8>>,
        right_input_schema: Vec<Vec<u8>>,
        left_key_schema: Vec<Vec<u8>>,
        right_key_schema: Vec<Vec<u8>>,
        left_key_idxs: Vec<usize>,
        right_key_idxs: Vec<usize>,
        args: JoinArgs,
        sample_limit: usize,
        ideal_morsel_size: usize,
    ) -> (r: Result<EquiJoinNode, JoinError>)
        requires
            forall|k: int|
                0 <= k < left_key_idxs@.len() ==> (#[trigger] left_key_idxs@[k])
                    < left_input_schema@.len(),
            forall|k: int|
                0 <= k < right_key_idxs@.len() ==> (#[trigger] right_key_idxs@[k])
                    < right_input_schema@.len(),
            1 <= ideal_morsel_size <= 0xFFFF_FFFF,
        ensures
            match r {
                Ok(node) => {
                    &&& node.wf()
                    &&& node.params.left_is_build == (match args.maintain_order {
                        MaintainOrder::NoOrder => if sample_limit == 0 {
                            Some(true)
                        } else {
                            None::<bool>
                        },
                        MaintainOrder::Left | MaintainOrder::LeftRight => Some(false),
                        MaintainOrder::Right | MaintainOrder::RightLeft => Some(true),
                    })
                    &&& node.params.preserve_order_probe == (args.maintain_order
                        != MaintainOrder::NoOrder)
                    &&& node.params.preserve_order_build == (args.maintain_order
                        == MaintainOrder::LeftRight || args.maintain_order
                        == MaintainOrder::RightLeft)
                    &&& (node.state is Sample <==> node.params.left_is_build is None)
                    &&& (node.state is Build <==> node.params.left_is_build is Some)
                    &&& (node.state is Sample ==> node.state->Sample_0.left@.len() == 0
                        && node.state->Sample_0.right@.len() == 0 && node.state->Sample_0.left_len
                        == 0 && node.state->Sample_0.right_len == 0)
                    &&& (node.state is Build ==> node.state->Build_0.morsels@.len() == 0
                        && node.state->Build_0.sampled_probe_morsels.morsels@.len() == 0)
                    &&& forall|i: int|
                        0 <= i < left_input_schema@.len() ==> sel_view(
                            node.params.left_payload_select@,
                        )[i] == selector_entry(
                            names_view(left_input_schema@),
                            names_view(right_input_schema@),
                            names_view(left_key_schema@),
                            true,
                            args.how,
                            args.coalesce,
                            args.suffix@,
                            i,
                        )
                    &&& forall|i: int|
                        0 <= i < right_input_schema@.len() ==> sel_view(
                            node.params.right_payload_select@,
                        )[i] == selector_entry(
                            names_view(right_input_schema@),
                            names_view(left_input_schema@),
                            names_view(right_key_schema@),
                            false,
                            args.how,
                            args.coalesce,
                            args.suffix@,
                            i,
                        )
                    &&& forall|i: int|
                        0 <= i < right_input_schema@.len() ==> !entry_collides(
                            names_view(right_input_schema@),
                            names_view(left_input_schema@),
                            names_view(right_key_schema@),
                            false,
                            args.how,
                            args.coalesce,
                            args.suffix@,
                            i,
                        )
                    &&& node.sample_limit == sample_limit
                    &&& node.ideal_morsel_size == ideal_morsel_size
                    &&& node.num_pipelines == 0
                    &&& node.params.args == args
                },
                Err(e) => exists|i: int|
                    {
                        &&& 0 <= i < right_input_schema@.len()
                        &&& #[trigger] entry_collides(
                            names_view(right_input_schema@),
                            names_view(left_input_schema@),
                            names_view(right_key_schema@),
                            false,
                            args.how,
                            args.coalesce,
                            args.suffix@,
                            i,
                        )
                        &&& crate::selector::duplicate_name(e) == names_view(
                            right_input_schema@,
                        )[i] + args.suffix@
                    },
            },
    {
        let left_is_build: Option<bool> = match args.maintain_order {
            MaintainOrder::NoOrder => if sample_limit == 0 {
                Some(true)
            } else {
                None
            },
            MaintainOrder::Left | MaintainOrder::LeftRight => Some(false),
            MaintainOrder::Right | MaintainOrder::RightLeft => Some(true),
        };
        let preserve_order_probe = !matches!(args.maintain_order, MaintainOrder::NoOrder);
        let preserve_order_build = matches!(
            args.maintain_order,
            MaintainOrder::LeftRight | MaintainOrder::RightLeft,
        );
        let left_payload_select = match compute_payload_selector(
            &left_input_schema,
            &right_input_schema,
            &left_key_schema,
            true,
            &args,
        ) {
            Ok(s) => s,
            Err(e) => {
                proof {
                    assert(false);
                }
                return Err(e);
            },
        };
        let right_payload_select = match compute_payload_selector(
            &right_input_schema,
            &left_input_schema,
            &right_key_schema,
            false,
            &args,
        ) {
            Ok(s) => s,
            Err(e) => {
                return Err(e);
            },
        };
        let left_payload_schema = select_schema(&left_input_schema, &left_payload_select);
        let right_payload_schema = select_schema(&right_input_schema, &right_payload_select);
        let state = if left_is_build.is_some() {
            EquiJoinState::Build(
                BuildState {
                    morsels: Vec::new(),
                    sampled_probe_morsels: BufferedStream::new_empty(),
                },
            )
        } else {
            EquiJoinState::Sample(SampleState::new())
        };
        Ok(
            EquiJoinNode {
                state,
                params: EquiJoinParams {
                    left_is_build,
                    preserve_order_build,
                    preserve_order_probe,
                    left_input_schema,
                    right_input_schema,
                    left_key_schema,
                    right_key_schema,
                    left_key_idxs,
                    right_key_idxs,
                    left_payload_select,
                    right_payload_select,
                    left_payload_schema,
                    right_payload_schema,
                    args,
                },
                num_pipelines: 0,
                sample_limit,
                ideal_morsel_size,
            },
        )
    }

    /// Records the pipeline count the scheduler will use.
    pub fn initialize(&mut self, num_pipelines: usize)
        ensures
            final(self).num_pipelines == num_pipelines,
            final(self).state == old(self).state,
            final(self).params == old(self).params,
            final(self).sample_limit == old(self).sample_limit,
            final(self).ideal_morsel_size == old(self).ideal_morsel_size,
            old(self).wf() && !(old(self).state is Probe) ==> final(self).wf(),
    {
        self.num_pipelines = num_pipelines;
    }

    /// The node's display name.
    pub fn name(&self) -> &'static str {
        "equi_join"
    }

    /// Whether the node is holding memory back from other operators: it is
    /// while sampling or building.
    pub fn is_memory_intensive_pipeline_blocker(&self) -> (r: bool)
        ensures
            r == (self.state is Sample || self.state is Build),
    {
        matches!(self.state, EquiJoinState::Sample(_) | EquiJoinState::Build(_))
    }
}

impl EquiJoinNode {
    /// Absorbs one sample morsel on the left input: it joins the buffer, the
    /// running length grows by its height, and the source is asked to stop
    /// at the sample limit or at ten times the other side's final length.
    pub fn sink_left_sample(&mut self, m: Morsel, other_final_len: usize) -> (stop: bool)
        requires
            old(self).wf(),
            old(self).state is Sample,
            m.wf(),
            m.df.names@.len() == old(self).params.left_input_schema@.len(),
        ensures
            final(self).wf(),
            final(self).state is Sample,
            final(self).params == old(self).params,
            final(self).sample_limit == old(self).sample_limit,
            final(self).num_pipelines == old(self).num_pipelines,
            final(self).ideal_morsel_size == old(self).ideal_morsel_size,
            final(self).state->Sample_0.left@ == old(self).state->Sample_0.left@.push(m),
            final(self).state->Sample_0.left_len as int == sat_add(
                old(self).state->Sample_0.left_len as int,
                m.df.spec_height() as int,
            ),
            final(self).state->Sample_0.right@ == old(self).state->Sample_0.right@,
            final(self).state->Sample_0.right_len == old(self).state->Sample_0.right_len,
            stop == (final(self).state->Sample_0.left_len >= old(self).sample_limit || (
            final(self).state->Sample_0.left_len as int) >= (other_final_len as int) * (
            LOPSIDED_FACTOR as int)),
    {
        let limit = self.sample_limit;
        match &mut self.state {
            EquiJoinState::Sample(s) => {
                let ghost pre = s.left@;
                let stop = sink_morsel(&mut s.left, &mut s.left_len, m, other_final_len, limit);
                proof {
                    assert(s.left@ == pre.push(m));
                    assert forall|i: int| 0 <= i < s.left@.len() implies (
                    #[trigger] s.left@[i]).wf() && s.left@[i].df.names@.len()
                        == self.params.left_input_schema@.len() by {
                        if i < pre.len() {
                            assert(s.left@[i] == pre[i]);
                        } else {
                            assert(s.left@[i] == m);
                        }
                    }
                }
                stop
            },
            _ => {
                proof {
                    assert(false);
                }
                false
            },
        }
    }

    /// Absorbs one sample morsel on the right input; the mirror image of the
    /// left sink.
    pub fn sink_right_sample(&mut self, m: Morsel, other_final_len: usize) -> (stop: bool)
        requires
            old(self).wf(),
            old(self).state is Sample,
            m.wf(),
            m.df.names@.len() == old(self).params.right_input_schema@.len(),
        ensures
            final(self).wf(),
            final(self).state is Sample,
            final(self).params == old(self).params,
            final(self).sample_limit == old(self).sample_limit,
            final(self).num_pipelines == old(self).num_pipelines,
            final(self).ideal_morsel_size == old(self).ideal_morsel_size,
            final(self).state->Sample_0.right@ == old(self).state->Sample_0.right@.push(m),
            final(self).state->Sample_0.right_len as int == sat_add(
                old(self).state->Sample_0.right_len as int,
                m.df.spec_height() as int,
            ),
            final(self).state->Sample_0.left@ == old(self).state->Sample_0.left@,
            final(self).state->Sample_0.left_len == old(self).state->Sample_0.left_len,
            stop == (final(self).state->Sample_0.right_len >= old(self).sample_limit || (
            final(self).state->Sample_0.right_len as int) >= (other_final_len as int) * (
            LOPSIDED_FACTOR as int)),
    {
        let limit = self.sample_limit;
        match &mut self.state {
            EquiJoinState::Sample(s) => {
                let ghost pre = s.right@;
                let stop = sink_morsel(&mut s.right, &mut s.right_len, m, other_final_len, limit);
                proof {
                    assert(s.right@ == pre.push(m));
                    assert forall|i: int| 0 <= i < s.right@.len() implies (
                    #[trigger] s.right@[i]).wf() && s.right@[i].df.names@.len()
                        == self.params.right_input_schema@.len() by {
                        if i < pre.len() {
                            assert(s.right@[i] == pre[i]);
                        } else {
                            assert(s.right@[i] == m);
                        }
                    }
                }
                stop
            },
            _ => {
                proof {
                    assert(false);
                }
                false
            },
        }
    }

    /// Absorbs one build morsel while building: it joins the build buffer.
    pub fn sink_build_morsel(&mut self, m: Morsel)
        requires
            old(self).wf(),
            old(self).state is Build,
            m.wf(),
            m.df.names@.len() == build_input_width(
                &old(self).params,
                old(self).params.left_is_build.unwrap(),
            ),
        ensures
            final(self).wf(),
            final(self).state is Build,
            final(self).params == old(self).params,
            final(self).sample_limit == old(self).sample_limit,
            final(self).num_pipelines == old(self).num_pipelines,
            final(self).ideal_morsel_size == old(self).ideal_morsel_size,
            final(self).state->Build_0.morsels@ == old(self).state->Build_0.morsels@.push(m),
            final(self).state->Build_0.sampled_probe_morsels == old(self).state->Build_0.sampled_probe_morsels,
    {
        match &mut self.state {
            EquiJoinState::Build(b) => {
                let ghost pre = b.morsels@;
                b.morsels.push(m);
                proof {
                    assert(b.morsels@ == pre.push(m));
                    assert forall|i: int| 0 <= i < b.morsels@.len() implies (
                    #[trigger] b.morsels@[i]).wf() && b.morsels@[i].df.names@.len()
                        == build_input_width(&self.params, self.params.left_is_build.unwrap())
                        by {
                        if i < pre.len() {
                            assert(b.morsels@[i] == pre[i]);
                        } else {
                            assert(b.morsels@[i] == m);
                        }
                    }
                }
            },
            _ => {
                proof {
                    assert(false);
                }
            },
        }
    }

    /// Hands out the next unmatched-row morsel in order, advancing the
    /// drain; returns nothing exactly when no unmatched morsel is left or
    /// the node is in another phase.
    pub fn next_unmatched_morsel(&mut self) -> (r: Option<Morsel>)
        requires
            old(self).wf(),
        ensures
            final(self).wf(),
            final(self).params == old(self).params,
            old(self).state is EmitUnmatchedBuild ==> {
                let e = old(self).state->EmitUnmatchedBuild_0;
                if e.next < e.morsels@.len() {
                    &&& r == Some(e.morsels@[e.next as int])
                    &&& final(self).state is EmitUnmatchedBuild
                    &&& final(self).state->EmitUnmatchedBuild_0.morsels@ == e.morsels@.remove(
                        e.next as int,
                    )
                    &&& final(self).state->EmitUnmatchedBuild_0.next == e.next
                } else {
                    r is None && *final(self) == *old(self)
                }
            },
            old(self).state is EmitUnmatchedBuildInOrder ==> {
                let src = old(self).state->EmitUnmatchedBuildInOrder_0;
                if src.next < src.morsels@.len() {
                    &&& r == Some(src.morsels@[src.next as int])
                    &&& final(self).state is EmitUnmatchedBuildInOrder
                    &&& final(self).state->EmitUnmatchedBuildInOrder_0.morsels@
                        == src.morsels@.remove(src.next as int)
                    &&& final(self).state->EmitUnmatchedBuildInOrder_0.next == src.next
                } else {
                    r is None && *final(self) == *old(self)
                }
            },
            !(old(self).state is EmitUnmatchedBuild) && !(old(self).state is EmitUnmatchedBuildInOrder)
                ==> r is None && *final(self) == *old(self),
    {
        match &mut self.state {
            EquiJoinState::EmitUnmatchedBuild(e) => {
                if e.next < e.morsels.len() {
                    let m = e.morsels.remove(e.next);
                    Some(m)
                } else {
                    None
                }
            },
            EquiJoinState::EmitUnmatchedBuildInOrder(src) => {
                if src.next < src.morsels.len() {
                    let m = src.morsels.remove(src.next);
                    Some(m)
                } else {
                    None
                }
            },
            _ => None,
        }
    }

    /// Probes one morsel while probing: each of its rows is matched against
    /// the table of its key's partition, matched build keys are marked when
    /// unmatched build rows are owed, the result is coalesced, and the
    /// largest sequence number sent is updated.
    #[verifier::rlimit(100)]
    pub fn process_probe_morsel(&mut self, m: &Morsel) -> (out: Vec<Frame>)
        requires
            old(self).wf(),
            old(self).state is Probe,
            1 <= old(self).num_pipelines <= 0x7FFF,
            old(self).params.spec_full_coalesce() ==> coalesce_ok(
                out_schema(&old(self).params),
                names_view(old(self).params.left_key_schema@),
                0,
                0,
            ),
            m.wf(),
            m.df.names@.len() == probe_input_width(
                &old(self).params,
                old(self).params.left_is_build.unwrap(),
            ),
            m.seq < u64::MAX,
        ensures
            final(self).wf(),
            final(self).state is Probe,
            final(self).params == old(self).params,
            final(self).sample_limit == old(self).sample_limit,
            final(self).num_pipelines == old(self).num_pipelines,
            final(self).ideal_morsel_size == old(self).ideal_morsel_size,
            ({
                let lib = old(self).params.left_is_build.unwrap();
                let ps0 = old(self).state->Probe_0;
                let ps1 = final(self).state->Probe_0;
                let n = ps0.table_per_partition@.len() as int;
                let pkidx = if lib {
                    old(self).params.right_key_idxs@
                } else {
                    old(self).params.left_key_idxs@
                };
                let psel = if lib {
                    sel_view(old(self).params.right_payload_select@)
                } else {
                    sel_view(old(self).params.left_payload_select@)
                };
                let ne = old(self).params.args.nulls_equal;
                let eup = spec_emit_probe(lib, old(self).params.args.how);
                let eub = spec_emit_build(lib, old(self).params.args.how);
                let ordered = old(self).params.preserve_order_probe;
                let bw = build_payload_width(&old(self).params, lib);
                let fc = old(self).params.spec_full_coalesce();
                let osv = out_schema(&old(self).params);
                let lkv = names_view(old(self).params.left_key_schema@);
                let ord = spec_probe_order(*m, pkidx, n, eup, ne, ordered);
                let keys = keys_of_frame(morsel_rows(*m), pkidx);
                &&& ps1.table_per_partition@.len() == n
                &&& forall|q: int|
                    #![trigger ps1.table_per_partition@[q]]
                    0 <= q < n ==> {
                        &&& ps1.table_per_partition@[q].keys@
                            == ps0.table_per_partition@[q].keys@
                        &&& ps1.table_per_partition@[q].rows@
                            == ps0.table_per_partition@[q].rows@
                        &&& ps1.table_per_partition@[q].names@
                            == ps0.table_per_partition@[q].names@
                        &&& ps1.table_per_partition@[q].chunk_seqs@
                            == ps0.table_per_partition@[q].chunk_seqs@
                    }
                &&& forall|q: int, c: int, i: int|
                    #![trigger ps1.table_per_partition@[q].marks@[c]@[i]]
                    0 <= q < n && 0 <= c < ps0.table_per_partition@[q].marks@.len() && 0 <= i
                        < ps0.table_per_partition@[q].marks@[c]@.len()
                        ==> ps1.table_per_partition@[q].marks@[c]@[i] == crate::probe::probed_mark(
                        crate::table::bools_view(ps0.table_per_partition@[q].marks@)[c][i],
                        crate::table::chunks_view(ps0.table_per_partition@[q].keys@)[c][i],
                        ord,
                        keys,
                        ne,
                        eub,
                    )
                &&& ps1.max_seq_sent as int == (if m.seq as int > ps0.max_seq_sent as int {
                    m.seq as int
                } else {
                    ps0.max_seq_sent as int
                })
                &&& ps1.sampled_probe_morsels == ps0.sampled_probe_morsels
                &&& crate::driver::frames_rows(out@) == postprocessed(
                    rows_for_order(
                        ps0.table_per_partition@,
                        ord,
                        keys,
                        payload_rows(*m, psel),
                        ne,
                        eup,
                        lib,
                        bw,
                    ),
                    fc,
                    osv,
                    lkv,
                )
                &&& forall|t: int| 0 <= t < out@.len() ==> (#[trigger] out@[t]).wf()
                &&& forall|t: int|
                    0 <= t < out@.len() ==> 1 <= (#[trigger] out@[t]).spec_height()
                &&& (ordered ==> out@.len() <= 1)
                &&& (!ordered ==> forall|t: int|
                    0 <= t < out@.len() ==> (#[trigger] out@[t]).spec_height()
                        <= old(self).ideal_morsel_size)
            }),
    {
        let lib = self.params.left_is_build.unwrap();
        let ne = self.params.args.nulls_equal;
        let eup = if lib {
            matches!(self.params.args.how, crate::args::JoinType::Right | crate::args::JoinType::Full)
        } else {
            matches!(self.params.args.how, crate::args::JoinType::Left | crate::args::JoinType::Full)
        };
        let eub = if lib {
            matches!(self.params.args.how, crate::args::JoinType::Left | crate::args::JoinType::Full)
        } else {
            matches!(self.params.args.how, crate::args::JoinType::Right | crate::args::JoinType::Full)
        };
        let fc = matches!(self.params.args.how, crate::args::JoinType::Full)
            && self.params.args.should_coalesce();
        let ordered = self.params.preserve_order_probe;
        let bw = if lib {
            self.params.left_payload_schema.len()
        } else {
            self.params.right_payload_schema.len()
        };
        let ppw = if lib {
            self.params.right_payload_schema.len()
        } else {
            self.params.left_payload_schema.len()
        };
        let out_names = concat_name_lists(
            &self.params.left_payload_schema,
            &self.params.right_payload_schema,
        );
        proof {
            assert(names_view(out_names@) == out_schema(&self.params));
            assert(out_names@.len() == bw + ppw);
        }
        let pkidx_exec = if lib {
            &self.params.right_key_idxs
        } else {
            &self.params.left_key_idxs
        };
        let psel_exec = if lib {
            &self.params.right_payload_select
        } else {
            &self.params.left_payload_select
        };
        let ghost pkidx = pkidx_exec@;
        let ghost psel = sel_view(psel_exec@);
        let ghost osv = out_schema(&self.params);
        let ghost lkv = names_view(self.params.left_key_schema@);
        let keys = select_keys(&m.df, pkidx_exec);
        let payload = crate::selector::select_payload(&m.df, psel_exec);
        let ghost kv = keys_of_frame(morsel_rows(*m), pkidx);
        proof {
            assert(rows_view(keys@) == kv);
            assert(rows_view(payload.rows@) =~= payload_rows(*m, psel));
            assert(names_view(payload.names@).len() == payload.names@.len());
            assert(payload.names@.len() == ppw) by {
                assert(names_view(payload.names@) == selected_names(psel));
            }
            assert(forall|i: int|
                0 <= i < payload.rows@.len() ==> (#[trigger] payload.rows@[i])@.len() == ppw);
        }
        let ideal = self.ideal_morsel_size;
        match &mut self.state {
            EquiJoinState::Probe(ps) => {
                let n = ps.table_per_partition.len();
                let order = if ordered {
                    crate::probe::identity_order(keys.len())
                } else {
                    crate::probe::partition_major_order(&keys, n, eup, ne)
                };
                let ghost ord = order@.map_values(|u: usize| u as int);
                let ghost tables0 = ps.table_per_partition@;
                proof {
                    assert(ord == spec_probe_order(*m, pkidx, n as int, eup, ne, ordered));
                }
                let rows = probe_rows(
                    &mut ps.table_per_partition,
                    &order,
                    &keys,
                    &payload.rows,
                    ne,
                    eub,
                    eup,
                    lib,
                    bw,
                );
                proof {
                    crate::probe::lemma_rows_for_order_widths(
                        tables0,
                        ord,
                        kv,
                        payload_rows(*m, psel),
                        ne,
                        eup,
                        lib,
                        bw as nat,
                        ppw as nat,
                    );
                    assert forall|t: int| 0 <= t < rows@.len() implies (
                    #[trigger] rows@[t])@.len() == out_names@.len() by {
                        assert(rows_view(rows@)[t] == rows@[t]@);
                    }
                    assert(tables_partitioned(ps.table_per_partition@)) by {
                        assert forall|q: int, c: int, i: int|
                            #![trigger crate::table::chunks_view(ps.table_per_partition@[q].keys@)[c][i]]
                            0 <= q < ps.table_per_partition@.len() && 0 <= c
                                < ps.table_per_partition@[q].keys@.len() && 0 <= i
                                < crate::table::chunks_view(
                                ps.table_per_partition@[q].keys@,
                            )[c].len() implies crate::keys::partition_of(
                            crate::table::chunks_view(ps.table_per_partition@[q].keys@)[c][i],
                            ps.table_per_partition@.len() as int,
                        ) == q by {
                            assert(crate::table::chunks_view(ps.table_per_partition@[q].keys@)
                                == crate::table::chunks_view(tables0[q].keys@));
                        }
                    }
                }
                let out = crate::driver::emit_probe_frames(
                    rows,
                    &out_names,
                    fc,
                    &self.params.left_key_schema,
                    ordered,
                    ideal,
                );
                let ghost new_rows = rows_for_order(
                    tables0,
                    ord,
                    kv,
                    payload_rows(*m, psel),
                    ne,
                    eup,
                    lib,
                    bw as nat,
                );
                proof {
                    assert(crate::driver::frames_rows(out@) == postprocessed(
                        new_rows,
                        fc,
                        osv,
                        lkv,
                    ));
                }
                let seq_m = m.seq;
                if seq_m > ps.max_seq_sent {
                    ps.max_seq_sent = seq_m;
                }
                out
            },
            _ => {
                proof {
                    assert(false);
                }
                Vec::new()
            },
        }
    }
}

impl EquiJoinNode {
    /// Builds the unmatched-emission state from probed tables: the unmatched
    /// rows are padded, coalesced and sliced into morsels numbered from just
    /// past the largest probe sequence; order-preserving mode sorts them
    /// into origin order first. Stops only when the sequence numbers would
    /// run out.
    #[verifier::rlimit(100)]
    fn make_unmatched_state(
        tables: &Vec<ProbeTable>,
        params: &EquiJoinParams,
        lib: bool,
        max_seq_sent: u64,
        num_pipelines: usize,
        ideal_morsel_size: usize,
    ) -> (r: EquiJoinState)
        requires
            params.wf(),
            params.left_is_build == Some(lib),
            params.spec_full_coalesce() ==> coalesce_ok(
                out_schema(params),
                names_view(params.left_key_schema@),
                0,
                0,
            ),
            1 <= num_pipelines <= 0x7FFF,
            1 <= ideal_morsel_size <= 0xFFFF_FFFF,
            max_seq_sent < u64::MAX,
            forall|q: int| 0 <= q < tables@.len() ==> (#[trigger] tables@[q]).wf(),
            forall|q: int|
                0 <= q < tables@.len() ==> (#[trigger] tables@[q]).names@.len()
                    == build_payload_width(params, lib),
        ensures
            ({
                let um = all_unmatched(tables@);
                let ppw = probe_payload_width(params, lib);
                let fc = params.spec_full_coalesce();
                let osv = out_schema(params);
                let lkv = names_view(params.left_key_schema@);
                let pob = params.preserve_order_build;
                &&& (r is EmitUnmatchedBuild || r is EmitUnmatchedBuildInOrder || r is Done)
                &&& ((r is Done) <==> max_seq_sent as int + 1 + um.len() > u64::MAX as int)
                &&& (r is EmitUnmatchedBuild ==> {
                    let e = r->EmitUnmatchedBuild_0;
                    &&& !pob
                    &&& e.next == 0
                    &&& (e.morsels@.len() == 0 <==> um.len() == 0)
                    &&& morsels_rows(e.morsels@) == postprocessed(
                        padded_unmatched(um, ppw, lib),
                        fc,
                        osv,
                        lkv,
                    )
                    &&& forall|t: int|
                        0 <= t < e.morsels@.len() ==> (#[trigger] e.morsels@[t]).seq as int
                            == max_seq_sent as int + 1 + t
                })
                &&& (r is EmitUnmatchedBuildInOrder ==> {
                    let src = r->EmitUnmatchedBuildInOrder_0;
                    &&& pob
                    &&& src.next == 0
                    &&& (src.morsels@.len() == 0 <==> um.len() == 0)
                    &&& exists|umw: Seq<crate::table::UnmatchedRow>|
                        {
                            &&& #[trigger] crate::ordered::um_sorted(umw)
                            &&& crate::table::unmatched_view(umw).to_multiset()
                                == um.to_multiset()
                            &&& morsels_rows(src.morsels@) == postprocessed(
                                padded_unmatched(crate::table::unmatched_view(umw), ppw, lib),
                                fc,
                                osv,
                                lkv,
                            )
                        }
                    &&& forall|t: int|
                        0 <= t < src.morsels@.len() ==> (#[trigger] src.morsels@[t]).seq as int
                            == max_seq_sent as int + 1 + t
                })
            }),
    {
        let ghost osv = out_schema(params);
        let ghost lkv = names_view(params.left_key_schema@);
        let fc = matches!(params.args.how, crate::args::JoinType::Full)
            && params.args.should_coalesce();
        let out_names = concat_name_lists(
            &params.left_payload_schema,
            &params.right_payload_schema,
        );
        let bw = if lib {
            params.left_payload_schema.len()
        } else {
            params.right_payload_schema.len()
        };
        let ppw = if lib {
            params.right_payload_schema.len()
        } else {
            params.left_payload_schema.len()
        };
        proof {
            assert(names_view(out_names@) == osv);
            assert(out_names@.len() == bw + ppw);
        }
        let mut total: usize = 0;
        let mut q: usize = 0;
        while q < tables.len()
            invariant
                0 <= q <= tables@.len(),
                forall|q2: int| 0 <= q2 < tables@.len() ==> (#[trigger] tables@[q2]).wf(),
            decreases tables.len() - q,
        {
            let nk = tables[q].num_keys();
            if total <= usize::MAX - nk {
                total += nk;
            } else {
                total = usize::MAX;
            }
            q += 1;
        }
        let total_c = if (total as u64) > 0xFFFF_FFFF_FFFFu64 {
            assert(usize::MAX as int > 0xFFFF_FFFF_FFFF);
            0xFFFF_FFFF_FFFFu64 as usize
        } else {
            total
        };
        let msize = morsel_size_for(total_c, ideal_morsel_size, num_pipelines);
        let start_seq = max_seq_sent + 1;
        let ghost mut um_w: Seq<crate::table::UnmatchedRow> = Seq::empty();
        let raw: Option<Vec<Morsel>>;
        if params.preserve_order_build {
            let um = crate::ordered::ordered_unmatched(tables, bw);
            proof {
                um_w = um@;
            }
            let mut rows: Vec<Vec<Cell>> = Vec::new();
            let mut nulls: Vec<Cell> = Vec::new();
            let mut w: usize = 0;
            while w < ppw
                invariant
                    0 <= w <= ppw,
                    nulls@.len() == w,
                    forall|x: int| 0 <= x < w ==> nulls@[x] is None,
                decreases ppw - w,
            {
                nulls.push(None);
                w += 1;
            }
            assert(nulls@ =~= crate::frame::null_row(ppw as nat));
            let mut t2: usize = 0;
            while t2 < um.len()
                invariant
                    0 <= t2 <= um@.len(),
                    um_w == um@,
                    nulls@ == crate::frame::null_row(ppw as nat),
                    bw + ppw == out_names@.len(),
                    forall|x: int| 0 <= x < um@.len() ==> (#[trigger] um@[x]).row@.len() == bw,
                    rows@.len() == t2,
                    forall|x: int|
                        0 <= x < t2 ==> (#[trigger] rows@[x])@ == crate::probe::combine_row(
                            um@[x].row@,
                            crate::frame::null_row(ppw as nat),
                            lib,
                        ),
                    forall|x: int|
                        0 <= x < rows@.len() ==> (#[trigger] rows@[x])@.len() == out_names@.len(),
                decreases um.len() - t2,
            {
                let row = if lib {
                    crate::frame::concat_cells(&um[t2].row, &nulls)
                } else {
                    crate::frame::concat_cells(&nulls, &um[t2].row)
                };
                rows.push(row);
                t2 += 1;
            }
            proof {
                assert forall|x: int| 0 <= x < rows@.len() implies rows_view(rows@)[x]
                    == padded_unmatched(
                    crate::table::unmatched_view(um@),
                    ppw as nat,
                    lib,
                )[x] by {
                    assert(rows_view(rows@)[x] == rows@[x]@);
                    assert(crate::table::unmatched_view(um@)[x] == (
                        um@[x].seq,
                        um@[x].idx as int,
                        um@[x].row@,
                    ));
                }
                assert(rows_view(rows@) =~= padded_unmatched(
                    crate::table::unmatched_view(um@),
                    ppw as nat,
                    lib,
                ));
            }
            let row_count = rows.len();
            if (start_seq as u128) + (row_count as u128) <= (u64::MAX as u128) {
                raw = Some(crate::emit::slice_into_morsels(rows, &out_names, msize, start_seq));
            } else {
                raw = None;
            }
        } else {
            proof {
                assert(forall|q2: int|
                    0 <= q2 < tables@.len() ==> (#[trigger] tables@[q2]).names@.len() + ppw
                        == out_names@.len());
            }
            raw = emit_unmatched_guarded(tables, &out_names, ppw, lib, msize, start_seq);
        }
        match raw {
            None => {
                proof {
                    assert(start_seq as int + all_unmatched(tables@).len() > u64::MAX as int);
                }
                EquiJoinState::Done
            },
            Some(ms) => {
                let ghost pre = ms@;
                let pp = postprocess_morsels(ms, fc, &params.left_key_schema);
                proof {
                    crate::driver::lemma_morsels_rows_pp(pre, pp@, fc, osv, lkv);
                    assert(morsels_rows(pre).len() == padded_unmatched(
                        all_unmatched(tables@),
                        ppw as nat,
                        lib,
                    ).len() || params.preserve_order_build);
                    if params.preserve_order_build {
                        assert(morsels_rows(pre) == padded_unmatched(
                            crate::table::unmatched_view(um_w),
                            ppw as nat,
                            lib,
                        ));
                        assert(um_w.len() == all_unmatched(tables@).len());
                        if pp@.len() == 0 {
                            assert(morsels_rows(pre) =~= Seq::<Seq<Cell>>::empty());
                        }
                        if all_unmatched(tables@).len() > 0 {
                            assert(morsels_rows(pre).len() > 0);
                            assert(pp@.len() > 0) by {
                                if pre.len() == 0 {
                                    assert(morsels_rows(pre) =~= Seq::<Seq<Cell>>::empty());
                                }
                            }
                        }
                    } else {
                        if pp@.len() == 0 {
                            assert(morsels_rows(pre) =~= Seq::<Seq<Cell>>::empty());
                        }
                        if all_unmatched(tables@).len() > 0 {
                            assert(morsels_rows(pre).len() > 0);
                            assert(pp@.len() > 0) by {
                                if pre.len() == 0 {
                                    assert(morsels_rows(pre) =~= Seq::<Seq<Cell>>::empty());
                                }
                            }
                        }
                    }
                }
                if params.preserve_order_build {
                    EquiJoinState::EmitUnmatchedBuildInOrder(
                        InMemorySource { morsels: pp, next: 0 },
                    )
                } else {
                    EquiJoinState::EmitUnmatchedBuild(EmitUnmatchedState { morsels: pp, next: 0 })
                }
            },
        }
    }

    /// One scheduler tick: runs the phase transitions and reports the new
    /// port states, `(left input, right input, output)`.
    #[verifier::rlimit(100)]
    pub fn update_state(&mut self, recv_left: PortState, recv_right: PortState, send: PortState)
        -> (r: (PortState, PortState, PortState))
        requires
            old(self).wf(),
            1 <= old(self).num_pipelines <= 0x7FFF,
            old(self).params.spec_full_coalesce() ==> coalesce_ok(
                out_schema(&old(self).params),
                names_view(old(self).params.left_key_schema@),
                0,
                0,
            ),
        ensures
            final(self).wf(),
            final(self).num_pipelines == old(self).num_pipelines,
            final(self).sample_limit == old(self).sample_limit,
            final(self).ideal_morsel_size == old(self).ideal_morsel_size,
            same_config(&final(self).params, &old(self).params),
            send == PortState::Done ==> final(self).state is Done,
            old(self).state is Done ==> final(self).state is Done,
            final(self).state is Done ==> r == (PortState::Done, PortState::Done, PortState::Done),
            final(self).state is Sample ==> r == (
                spec_sample_port(
                    recv_left,
                    final(self).state->Sample_0.left_len as int,
                    old(self).sample_limit as int,
                ),
                spec_sample_port(
                    recv_right,
                    final(self).state->Sample_0.right_len as int,
                    old(self).sample_limit as int,
                ),
                PortState::Blocked,
            ),
            final(self).state is Build ==> r == spec_build_ports(
                final(self).params.left_is_build.unwrap(),
                recv_left,
                recv_right,
            ),
            final(self).state is Probe ==> r == spec_probe_ports(
                final(self).params.left_is_build.unwrap(),
                recv_left,
                recv_right,
                send,
                final(self).state->Probe_0.sampled_probe_morsels.morsels@.len() == 0,
            ),
            final(self).state is EmitUnmatchedBuild ==> r == (
                PortState::Done,
                PortState::Done,
                PortState::Ready,
            ),
            final(self).state is EmitUnmatchedBuildInOrder ==> r == (
                PortState::Done,
                PortState::Done,
                PortState::Ready,
            ),
            send != PortState::Done && old(self).state is Sample && !spec_stop_sampling(
                recv_left is Done,
                recv_right is Done,
                old(self).state->Sample_0.left_len as int,
                old(self).state->Sample_0.right_len as int,
                old(self).sample_limit as int,
            ) ==> final(self).state is Sample && final(self).state->Sample_0.left@ == old(self).state->Sample_0.left@ && final(self).state->Sample_0.right@ == old(self).state->Sample_0.right@ && final(self).state->Sample_0.left_len == old(self).state->Sample_0.left_len && final(self).state->Sample_0.right_len == old(self).state->Sample_0.right_len && final(self).params == old(self).params,
            send != PortState::Done && old(self).state is Sample && spec_stop_sampling(
                recv_left is Done,
                recv_right is Done,
                old(self).state->Sample_0.left_len as int,
                old(self).state->Sample_0.right_len as int,
                old(self).sample_limit as int,
            ) ==> ({
                let d = spec_sample_choice(
                    &old(self).state->Sample_0,
                    &old(self).params,
                    old(self).sample_limit as int,
                );
                let chosen = if d {
                    old(self).state->Sample_0.left@
                } else {
                    old(self).state->Sample_0.right@
                };
                let other = if d {
                    old(self).state->Sample_0.right@
                } else {
                    old(self).state->Sample_0.left@
                };
                let bdone = if d {
                    recv_left is Done
                } else {
                    recv_right is Done
                };
                &&& final(self).params.left_is_build == Some(d)
                &&& !(final(self).state is Sample)
                &&& (!bdone ==> final(self).state is Build && ({
                    let b = final(self).state->Build_0;
                    &&& b.morsels@.len() == chosen.len()
                    &&& forall|i: int|
                        0 <= i < chosen.len() ==> (#[trigger] b.morsels@[i]).df.rows@
                            == chosen[i].df.rows@ && b.morsels@[i].df.names@
                            == chosen[i].df.names@ && b.morsels@[i].seq as int == i
                    &&& b.sampled_probe_morsels.morsels@.len() == other.len()
                    &&& forall|i: int|
                        0 <= i < other.len() ==> (
                        #[trigger] b.sampled_probe_morsels.morsels@[i]).df.rows@
                            == other[i].df.rows@
                            && b.sampled_probe_morsels.morsels@[i].df.names@
                            == other[i].df.names@
                            && b.sampled_probe_morsels.morsels@[i].seq as int == i
                }))
            }),
            send != PortState::Done && old(self).state is Build && !((if old(self).params.left_is_build.unwrap() {
                recv_left
            } else {
                recv_right
            }) is Done) ==> final(self).state is Build && final(self).state->Build_0.morsels@
                == old(self).state->Build_0.morsels@
                && final(self).state->Build_0.sampled_probe_morsels == old(self).state->Build_0.sampled_probe_morsels,
            send != PortState::Done && old(self).state is Build && ((if old(self).params.left_is_build.unwrap() {
                recv_left
            } else {
                recv_right
            }) is Done) ==> ({
                let lib = old(self).params.left_is_build.unwrap();
                let b0 = old(self).state->Build_0;
                let probe_in = if lib {
                    recv_right
                } else {
                    recv_left
                };
                &&& !(final(self).state is Build)
                &&& !(final(self).state is Sample)
                &&& ((final(self).state is Probe) <==> !(probe_in is Done
                    && b0.sampled_probe_morsels.morsels@.len() == 0))
                &&& (final(self).state is Probe ==> ({
                    let ps = final(self).state->Probe_0;
                    &&& ps.max_seq_sent == 0
                    &&& ps.sampled_probe_morsels == b0.sampled_probe_morsels
                    &&& ps.table_per_partition@.len() == old(self).num_pipelines
                    &&& forall|p: int|
                        #![trigger ps.table_per_partition@[p]]
                        0 <= p < ps.table_per_partition@.len() ==> {
                            let kidx = if lib {
                                old(self).params.left_key_idxs@
                            } else {
                                old(self).params.right_key_idxs@
                            };
                            let n = old(self).num_pipelines as int;
                            let track = spec_emit_build(lib, old(self).params.args.how);
                            let ne = old(self).params.args.nulls_equal;
                            chunks_view_of(ps.table_per_partition@[p])
                                == crate::building::kept_morsels(
                                b0.morsels@,
                                kidx,
                                p,
                                n,
                                track,
                                ne,
                            ).map_values(
                                |j: int| crate::building::chunk_keys_spec(
                                    morsel_rows(b0.morsels@[j]),
                                    kidx,
                                    p,
                                    n,
                                    track,
                                    ne,
                                ),
                            )
                        }
                }))
            }),
            send != PortState::Done && old(self).state is Probe && !(((if old(self).params.left_is_build.unwrap() {
                recv_right
            } else {
                recv_left
            }) is Done) && old(self).state->Probe_0.sampled_probe_morsels.morsels@.len() == 0)
                ==> final(self).state is Probe && final(self).state->Probe_0.table_per_partition@
                == old(self).state->Probe_0.table_per_partition@ && final(self).state->Probe_0.max_seq_sent == old(self).state->Probe_0.max_seq_sent && final(self).state->Probe_0.sampled_probe_morsels == old(self).state->Probe_0.sampled_probe_morsels,
            send != PortState::Done && old(self).state is Probe && ((if old(self).params.left_is_build.unwrap() {
                recv_right
            } else {
                recv_left
            }) is Done) && old(self).state->Probe_0.sampled_probe_morsels.morsels@.len() == 0
                ==> ({
                let lib = old(self).params.left_is_build.unwrap();
                let ps0 = old(self).state->Probe_0;
                let um = all_unmatched(ps0.table_per_partition@);
                let ppw = probe_payload_width(&old(self).params, lib);
                let fc = old(self).params.spec_full_coalesce();
                let osv = out_schema(&old(self).params);
                let lkv = names_view(old(self).params.left_key_schema@);
                let pob = old(self).params.preserve_order_build;
                let eub = spec_emit_build(lib, old(self).params.args.how);
                &&& (!eub ==> final(self).state is Done)
                &&& (eub ==> {
                    &&& ((final(self).state is Done) <==> (um.len() == 0 || ps0.max_seq_sent
                        as int + 1 + um.len() > u64::MAX as int))
                    &&& (final(self).state is EmitUnmatchedBuild ==> !pob && ({
                        let e = final(self).state->EmitUnmatchedBuild_0;
                        &&& e.next == 0
                        &&& morsels_rows(e.morsels@) == postprocessed(
                            padded_unmatched(um, ppw, lib),
                            fc,
                            osv,
                            lkv,
                        )
                        &&& forall|t: int|
                            0 <= t < e.morsels@.len() ==> (#[trigger] e.morsels@[t]).seq as int
                                == ps0.max_seq_sent as int + 1 + t
                    }))
                    &&& (final(self).state is EmitUnmatchedBuildInOrder ==> pob && ({
                        let src = final(self).state->EmitUnmatchedBuildInOrder_0;
                        &&& src.next == 0
                        &&& exists|umw: Seq<crate::table::UnmatchedRow>|
                            {
                                &&& #[trigger] crate::ordered::um_sorted(umw)
                                &&& crate::table::unmatched_view(umw).to_multiset()
                                    == um.to_multiset()
                                &&& morsels_rows(src.morsels@) == postprocessed(
                                    padded_unmatched(
                                        crate::table::unmatched_view(umw),
                                        ppw,
                                        lib,
                                    ),
                                    fc,
                                    osv,
                                    lkv,
                                )
                            }
                        &&& forall|t: int|
                            0 <= t < src.morsels@.len() ==> (#[trigger] src.morsels@[t]).seq
                                as int == ps0.max_seq_sent as int + 1 + t
                    }))
                })
            }),
            send != PortState::Done && old(self).state is EmitUnmatchedBuild ==> ({
                let e = old(self).state->EmitUnmatchedBuild_0;
                if e.next < e.morsels@.len() {
                    final(self).state is EmitUnmatchedBuild && final(self).state->EmitUnmatchedBuild_0.morsels@ == e.morsels@ && final(self).state->EmitUnmatchedBuild_0.next == e.next
                } else {
                    final(self).state is Done
                }
            }),
            send != PortState::Done && old(self).state is EmitUnmatchedBuildInOrder ==> ({
                let src = old(self).state->EmitUnmatchedBuildInOrder_0;
                if src.next < src.morsels@.len() {
                    final(self).state is EmitUnmatchedBuildInOrder && final(self).state->EmitUnmatchedBuildInOrder_0.morsels@ == src.morsels@ && final(self).state->EmitUnmatchedBuildInOrder_0.next == src.next
                } else {
                    final(self).state is Done
                }
            }),
    {
        let mut st = EquiJoinState::Done;
        core::mem::swap(&mut st, &mut self.state);

        // The consumer wants nothing more: stop at once.
        if matches!(send, PortState::Done) {
            st = EquiJoinState::Done;
        }
        // Sampling may settle the build side and move to building.
        st = match st {
            EquiJoinState::Sample(s) => {
                let left_done = matches!(recv_left, PortState::Done);
                let right_done = matches!(recv_right, PortState::Done);
                let limit = self.sample_limit;
                if stop_sampling(left_done, right_done, s.left_len, s.right_len, limit) {
                    let lsat = s.left_len >= limit;
                    let rsat = s.right_len >= limit;
                    let cards: Option<(usize, usize)> = if needs_estimate(
                        lsat,
                        rsat,
                        s.left_len,
                        s.right_len,
                    ) {
                        let lc = estimate_cardinality(
                            &s.left,
                            &self.params.left_key_idxs,
                            s.left_len,
                            limit,
                        );
                        let rc = estimate_cardinality(
                            &s.right,
                            &self.params.right_key_idxs,
                            s.right_len,
                            limit,
                        );
                        Some((lc, rc))
                    } else {
                        None
                    };
                    let lib = choose_build_side(lsat, rsat, s.left_len, s.right_len, cards);
                    self.params.left_is_build = Some(lib);
                    let SampleState { left, right, .. } = s;
                    let (bm, pm) = if lib {
                        (left, right)
                    } else {
                        (right, left)
                    };
                    let bm_count = bm.len();
                    assert(bm_count as int + 0 <= u64::MAX as int);
                    let relabeled = BufferedStream::new(bm, 0);
                    let pm_count = pm.len();
                    assert(pm_count as int + 0 <= u64::MAX as int);
                    let sampled_probe_morsels = BufferedStream::new(pm, 0);
                    let build_morsels = relabeled.morsels;
                    EquiJoinState::Build(
                        BuildState { morsels: build_morsels, sampled_probe_morsels },
                    )
                } else {
                    EquiJoinState::Sample(s)
                }
            },
            other => other,
        };
        // Building finishes when the build input is done: materialize the
        // tables and move to probing.
        st = match st {
            EquiJoinState::Build(b) => {
                let lib = self.params.left_is_build.unwrap();
                let build_done = if lib {
                    matches!(recv_left, PortState::Done)
                } else {
                    matches!(recv_right, PortState::Done)
                };
                if build_done {
                    let tables = build_tables(&b.morsels, &self.params, lib, self.num_pipelines);
                    EquiJoinState::Probe(
                        ProbeState {
                            table_per_partition: tables,
                            max_seq_sent: 0,
                            sampled_probe_morsels: b.sampled_probe_morsels,
                        },
                    )
                } else {
                    EquiJoinState::Build(b)
                }
            },
            other => other,
        };
        // Probing finishes when the probe input is done and the replay
        // buffer is drained: emit unmatched build rows or stop.
        st = match st {
            EquiJoinState::Probe(ps) => {
                let lib = self.params.left_is_build.unwrap();
                let probe_done = if lib {
                    matches!(recv_right, PortState::Done)
                } else {
                    matches!(recv_left, PortState::Done)
                };
                let samples_consumed = ps.sampled_probe_morsels.is_empty();
                if probe_done && samples_consumed {
                    let eub = if lib {
                        matches!(
                            self.params.args.how,
                            crate::args::JoinType::Left | crate::args::JoinType::Full,
                        )
                    } else {
                        matches!(
                            self.params.args.how,
                            crate::args::JoinType::Right | crate::args::JoinType::Full,
                        )
                    };
                    if eub {
                        Self::make_unmatched_state(
                            &ps.table_per_partition,
                            &self.params,
                            lib,
                            ps.max_seq_sent,
                            self.num_pipelines,
                            self.ideal_morsel_size,
                        )
                    } else {
                        EquiJoinState::Done
                    }
                } else {
                    EquiJoinState::Probe(ps)
                }
            },
            other => other,
        };
        // A drained unmatched stream finishes the node.
        st = match st {
            EquiJoinState::EmitUnmatchedBuild(e) => {
                if e.next >= e.morsels.len() {
                    EquiJoinState::Done
                } else {
                    EquiJoinState::EmitUnmatchedBuild(e)
                }
            },
            EquiJoinState::EmitUnmatchedBuildInOrder(src) => {
                if src.next >= src.morsels.len() {
                    EquiJoinState::Done
                } else {
                    EquiJoinState::EmitUnmatchedBuildInOrder(src)
                }
            },
            other => other,
        };
        // Report the port states of the final phase.
        let limit = self.sample_limit;
        let r: (PortState, PortState, PortState) = match &st {
            EquiJoinState::Sample(s) => {
                let rl = if matches!(recv_left, PortState::Done) {
                    PortState::Done
                } else if s.left_len < limit {
                    PortState::Ready
                } else {
                    PortState::Blocked
                };
                let rr = if matches!(recv_right, PortState::Done) {
                    PortState::Done
                } else if s.right_len < limit {
                    PortState::Ready
                } else {
                    PortState::Blocked
                };
                (rl, rr, PortState::Blocked)
            },
            EquiJoinState::Build(_) => {
                let lib = self.params.left_is_build.unwrap();
                let build_in = if lib {
                    recv_left
                } else {
                    recv_right
                };
                let probe_in = if lib {
                    recv_right
                } else {
                    recv_left
                };
                let b = if matches!(build_in, PortState::Done) {
                    PortState::Done
                } else {
                    PortState::Ready
                };
                let p = if matches!(probe_in, PortState::Done) {
                    PortState::Done
                } else {
                    PortState::Blocked
                };
                if lib {
                    (b, p, PortState::Blocked)
                } else {
                    (p, b, PortState::Blocked)
                }
            },
            EquiJoinState::Probe(ps) => {
                let lib = self.params.left_is_build.unwrap();
                let probe_in = if lib {
                    recv_right
                } else {
                    recv_left
                };
                let (new_probe, new_send) = if !matches!(probe_in, PortState::Done) {
                    (send, probe_in)
                } else {
                    let sp = if ps.sampled_probe_morsels.is_empty() {
                        PortState::Done
                    } else {
                        PortState::Ready
                    };
                    (PortState::Done, sp)
                };
                if lib {
                    (PortState::Done, new_probe, new_send)
                } else {
                    (new_probe, PortState::Done, new_send)
                }
            },
            EquiJoinState::EmitUnmatchedBuild(_) => (
                PortState::Done,
                PortState::Done,
                PortState::Ready,
            ),
            EquiJoinState::EmitUnmatchedBuildInOrder(_) => (
                PortState::Done,
                PortState::Done,
                PortState::Ready,
            ),
            EquiJoinState::Done => (PortState::Done, PortState::Done, PortState::Done),
        };
        self.state = st;
        r
    }
}

impl EquiJoinNode {
    /// Takes the buffered probe-side sample for replay, leaving the buffer
    /// empty; the replayed morsels precede anything the live probe input
    /// will deliver.
    pub fn take_sampled_probe_morsels(&mut self) -> (r: Vec<Morsel>)
        requires
            old(self).wf(),
            old(self).state is Probe,
        ensures
            final(self).wf(),
            final(self).state is Probe,
            final(self).params == old(self).params,
            final(self).num_pipelines == old(self).num_pipelines,
            final(self).sample_limit == old(self).sample_limit,
            final(self).ideal_morsel_size == old(self).ideal_morsel_size,
            final(self).state->Probe_0.table_per_partition@ == old(
                self,
            ).state->Probe_0.table_per_partition@,
            final(self).state->Probe_0.max_seq_sent == old(self).state->Probe_0.max_seq_sent,
            final(self).state->Probe_0.sampled_probe_morsels.morsels@.len() == 0,
            r@ == old(self).state->Probe_0.sampled_probe_morsels.morsels@,
    {
        match &mut self.state {
            EquiJoinState::Probe(ps) => {
                let mut taken = BufferedStream::new_empty();
                core::mem::swap(&mut taken, &mut ps.sampled_probe_morsels);
                taken.morsels
            },
            _ => {
                proof {
                    assert(false);
                }
                Vec::new()
            },
        }
    }
}

/// The key chunks of one table, as sequences.
pub open spec fn chunks_view_of(t: ProbeTable) -> Seq<Seq<Seq<Cell>>> {
    crate::table::chunks_view(t.keys@)
}

} // verus!
