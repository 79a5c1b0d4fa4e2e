use qarrot_optimizer::basis::{Basis, Basis8};
use qarrot_optimizer::input::parser::parse_circuit;
use qarrot_optimizer::operation::Operation;
use qarrot_optimizer::optimization::partition::{
    approximate_partition_t_gates, partition_t_gates, update_t_gate_partitions,
};
use qarrot_optimizer::optimization::partitions::Partitions;
use qarrot_optimizer::optimization::push_t_forward::{push_accumulator, push_t_forward_inplace};
use qarrot_optimizer::optimization::rotation_combination::fold_adjacent_rotations;
use qarrot_optimizer::optimization::streaming::{
    ReadWriteSwap, StreamingPartition, StreamingPush, SwapAction,
};
use qarrot_optimizer::optimization::{InMemoryOptimizer, Stats, MAX_PREALLOC_OPERATIONS};
use qarrot_optimizer::output::{Output, StringOut};
use qarrot_optimizer::clifford::Clifford;
use qarrot_optimizer::{run_txt_with, RunConfig};

fn ops(text: &str, n: usize) -> Vec<Operation<Basis8>> {
    parse_circuit::<Basis8>(text.as_bytes(), n).unwrap()
}

fn text(circuit: &[Operation<Basis8>], n: usize) -> String {
    let mut output = StringOut::new();
    for op in circuit {
        output.write_operation(n, op).unwrap();
    }
    output.into_string()
}

fn optimized(input: &str, n: usize, full_partitioning: bool) -> String {
    let cfg = RunConfig { full_partitioning, ..Default::default() };
    let mut output = StringOut::new();
    assert_eq!(run_txt_with::<Basis8, StringOut>(input.as_bytes(), n, &mut output, cfg), Ok(n));
    output.into_string()
}

#[test]
fn three_rotations_about_changing_axes_stay() {
    let input = "Rotate 1: Z\nRotate 1: X\nRotate 1: Z\nMeasure +: Z";
    let expected = "Rotate 1: Z\nRotate 1: X\nRotate 1: Z\nMeasure +: Z\nMeasure +: Z\n";
    assert_eq!(optimized(input, 1, true), expected);
    assert_eq!(optimized(input, 1, false), expected);
}

#[test]
fn a_hadamard_turns_the_readout() {
    let input = "Rotate 2: Z\nRotate 2: X\nRotate 2: Z\nMeasure +: Z";
    let expected = "Measure +: X\nMeasure +: X\n";
    assert_eq!(optimized(input, 1, true), expected);
    assert_eq!(optimized(input, 1, false), expected);
}

#[test]
fn t_times_t_is_s() {
    let (folded, read) = fold_adjacent_rotations(ops("Rotate 1: Z\nRotate 1: Z\nMeasure +: Z", 1));
    assert_eq!(read, 3);
    assert_eq!(text(&folded, 1), "Rotate 2: Z\nMeasure +: Z\n");
}

#[test]
fn t_times_its_inverse_is_nothing() {
    let (folded, _) = fold_adjacent_rotations(ops("Rotate 1: Z\nRotate -1: Z\nMeasure +: Z", 1));
    assert_eq!(text(&folded, 1), "Measure +: Z\n");
    assert_eq!(
        optimized("Rotate 1: Z\nRotate -1: Z\nMeasure +: Z", 1, false),
        "Measure +: Z\nMeasure +: Z\n"
    );
}

#[test]
fn cx_as_rotations() {
    let input = "Rotate 2: ZX\nRotate -2: ZI\nRotate -2: IX\nMeasure +: ZZ";
    let (folded, _) = fold_adjacent_rotations(ops(input, 2));
    assert_eq!(text(&folded, 2), "Rotate 2: ZX\nRotate -2: ZI\nRotate -2: IX\nMeasure +: ZZ\n");
    let out = optimized(input, 2, true);
    assert_eq!(out, "Measure +: IZ\nMeasure +: ZI\nMeasure +: ZZ\n");
}

#[test]
fn commuting_rotations_meet_in_a_layer() {
    let input = "Rotate 1: ZII\nRotate 1: IZI\nRotate 1: ZII\n";
    let (folded, _) = fold_adjacent_rotations(ops(input, 3));
    assert_eq!(folded.len(), 3);
    let mut circuit = ops(input, 3);
    let mut layers = Partitions::new();
    layers.init_one_per_t_gate(3);
    assert!(!update_t_gate_partitions(&circuit, &mut layers));
    assert_eq!(layers.len(), 1);
    let mut circuit_b = ops(input, 3);
    let mut partitions = Partitions::new();
    let changed = partition_t_gates(&mut partitions, &mut circuit_b, 3);
    assert!(changed);
    assert_eq!(text(&circuit_b, 3), "Rotate 2: ZII\nRotate 1: IZI\n");
    let (changed, stats) = approximate_partition_t_gates(&mut circuit);
    assert!(!changed);
    assert_eq!(stats.total_operations, 3);
    assert_eq!(stats.t_gates, 3);
    assert_eq!(
        optimized(input, 3, true),
        "Rotate 1: IZI\nMeasure +: ZII\nMeasure +: IZI\nMeasure +: IIZ\n"
    );
}

#[test]
fn layers_of_rotations_that_do_not_commute() {
    let input = "Rotate 1: ZI\nRotate 1: XI\nRotate 1: ZI\nRotate 1: IZ\n";
    let mut circuit = ops(input, 2);
    let mut partitions = Partitions::new();
    assert!(!partition_t_gates(&mut partitions, &mut circuit, 4));
    assert_eq!(partitions.len(), 3);
    assert_eq!(partitions.partition(0), &[0, 3]);
    assert_eq!(text(&circuit, 2), "Rotate 1: ZI\nRotate 1: IZ\nRotate 1: XI\nRotate 1: ZI\n");
    assert!(!partition_t_gates(&mut partitions, &mut circuit, 0));
}

#[test]
fn a_repeat_block_unrolled_and_folded() {
    let expanded = ops("Repeat 3\nRotate 1: Z\nEnd", 1);
    assert_eq!(text(&expanded, 1), "Rotate 1: Z\nRotate 1: Z\nRotate 1: Z\n");
    let (folded, read) = fold_adjacent_rotations(expanded);
    assert_eq!(read, 3);
    assert_eq!(text(&folded, 1), "Rotate 2: Z\nRotate 1: Z\n");
}

#[test]
fn pushing_forward_absorbs_the_clifford_rotations() {
    let mut circuit = ops("Rotate 2: Z\nRotate 1: X\nMeasure +: X\nRotate 0: Z\nMeasure -: X\n", 1);
    let (changed, t_gates) = push_t_forward_inplace(&mut circuit, 1);
    assert!(changed);
    assert_eq!(t_gates, 1);
    assert_eq!(text(&circuit, 1), "Rotate -1: Y\nMeasure -: Y\nMeasure -: Y\n");
    let (changed, t_gates) = push_t_forward_inplace(&mut circuit, 1);
    assert!(!changed);
    assert_eq!(t_gates, 1);
    assert_eq!(text(&circuit, 1), "Rotate -1: Y\nMeasure -: Y\nMeasure -: Y\n");
}

#[test]
fn an_absorbed_rotation_alone_is_no_change() {
    let mut circuit = ops("Rotate 2: Z\nRotate 1: Z\nMeasure -: Z\n", 1);
    let (changed, t_gates) = push_t_forward_inplace(&mut circuit, 1);
    assert!(!changed);
    assert_eq!(t_gates, 1);
    assert_eq!(text(&circuit, 1), "Rotate 1: Z\nMeasure -: Z\n");
}

#[test]
fn the_driver_step_by_step() {
    let mut accumulator = Clifford::<Basis8>::identity(1);
    let mut scratch = Clifford::<Basis8>::identity(1);
    let circuit = ops("Rotate -1: X\nRotate 0: Z\nRotate -1: X\nMeasure +: X\nRotate -2: X\nMeasure +: Z", 1);
    let (changed, was_t, out) = push_accumulator(&mut accumulator, &mut scratch, &circuit[0]);
    assert_eq!((changed, was_t), (false, true));
    assert_eq!(out, Some(circuit[0]));
    let (changed, was_t, out) = push_accumulator(&mut accumulator, &mut scratch, &circuit[1]);
    assert_eq!((changed, was_t, out), (false, false, None));
    let (changed, was_t, out) = push_accumulator(&mut accumulator, &mut scratch, &circuit[2]);
    assert_eq!((changed, was_t), (true, true));
    assert_eq!(text(&[out.unwrap()], 1), "Rotate 1: X\n");
    let (changed, was_t, out) = push_accumulator(&mut accumulator, &mut scratch, &circuit[3]);
    assert_eq!((changed, was_t), (true, false));
    assert_eq!(text(&[out.unwrap()], 1), "Measure -: X\n");
}

#[test]
fn the_optimizer_round_by_round() {
    let input = ops("Rotate 1: ZI\nRotate 2: IX\nRotate 1: ZI\nRotate 1: IZ\n", 2);
    let cfg = RunConfig::default();
    let mut optimizer = InMemoryOptimizer::<Basis8>::new(2, input, &cfg);
    assert_eq!(optimizer.initial_circuit_length(), Some(4));
    assert_eq!(optimizer.post_reduction_length(), Some(6));
    assert!(optimizer.latest_stats().is_none());
    let (changed, stats) = optimizer.push_t_forward();
    assert!(changed);
    assert_eq!((stats.total_operations, stats.t_gates), (5, 3));
    let (changed, stats) = optimizer.partition();
    assert!(changed);
    assert_eq!((stats.total_operations, stats.t_gates), (4, 1));
    assert_eq!(text(optimizer.circuit(), 2), "Rotate 2: ZI\nRotate 1: IY\nMeasure +: ZI\nMeasure +: IY\n");
    // the rotation by pi/4 is absorbed, and nothing else moves
    let rounds = optimizer.optimize();
    assert_eq!(rounds, 1);
    let first = text(optimizer.circuit(), 2);
    assert_eq!(first, "Rotate 1: IY\nMeasure +: ZI\nMeasure +: IY\n");
    // a further run changes nothing and takes one round
    assert_eq!(optimizer.optimize(), 1);
    assert_eq!(text(optimizer.circuit(), 2), first);
    let mut output = StringOut::new();
    optimizer.write_to_output(&mut output).unwrap();
    assert_eq!(output.into_string(), first);
}

#[test]
fn sizes_never_grow_from_phase_to_phase() {
    let mut seed = 12345u64;
    let mut next = |bound: u64| {
        seed = seed.wrapping_mul(6364136223846793005).wrapping_add(1442695040888963407);
        (seed >> 33) % bound
    };
    for full in [false, true] {
        for _ in 0..20 {
            let mut input = String::new();
            for _ in 0..40 {
                let angle = [1, 1, -1, 2, -2, 0][next(6) as usize];
                let a = ["I", "X", "Y", "Z"][next(4) as usize];
                let b = ["I", "I", "X", "Z"][next(4) as usize];
                let c = ["I", "I", "I", "Z"][next(4) as usize];
                input.push_str(&format!("Rotate {}: {}{}{}\n", angle, a, b, c));
            }
            let cfg = RunConfig { full_partitioning: full, ..Default::default() };
            let mut optimizer = InMemoryOptimizer::<Basis8>::new(3, ops(&input, 3), &cfg);
            let mut length = optimizer.post_reduction_length().unwrap();
            let mut t_gates = usize::MAX;
            let mut rounds = 0;
            let at_first = optimizer
                .circuit()
                .iter()
                .filter(|op| op.as_rotation().map(|r| r.angle.is_pi8()).unwrap_or(false))
                .count();
            loop {
                let (changed_t, after_push) = optimizer.push_t_forward();
                assert!(after_push.total_operations <= length);
                assert!(after_push.t_gates <= t_gates);
                let (changed_p, after_partition) = optimizer.partition();
                assert!(after_partition.total_operations <= after_push.total_operations);
                let left = optimizer.circuit().iter().filter(|op| {
                    op.as_rotation().map(|r| r.angle.is_pi8()).unwrap_or(false)
                }).count();
                assert!(left <= after_push.t_gates);
                length = after_partition.total_operations;
                t_gates = left;
                rounds += 1;
                assert!(rounds <= 2 * 43 + 2);
                if !(changed_t || changed_p) {
                    break;
                }
            }
            if !full {
                assert!(rounds <= at_first + 2);
            }
        }
    }
}

#[test]
fn the_streaming_partitioner_with_a_drained_buffer() {
    let input = "Rotate 1: ZI\nRotate 1: IZ\nRotate 1: ZI\nMeasure +: XX\nRotate -1: XI\nRotate 1: XI\nRotate 1: ZZ\nRotate 1: ZZ\nMeasure -: ZI\n";
    let circuit = ops(input, 2);
    let mut whole = ops(input, 2);
    let (changed, stats) = approximate_partition_t_gates(&mut whole);
    for buffer_length in [1, 2, 4, 100] {
        let mut partition = StreamingPartition::<Basis8>::new();
        let mut write_buf = Vec::new();
        let mut written = Vec::new();
        for chunk in circuit.chunks(buffer_length) {
            partition.feed(&chunk.to_vec(), &mut write_buf);
            assert_eq!(
                partition.stats_so_far().total_operations,
                written.len() + write_buf.len()
            );
            written.append(&mut write_buf);
        }
        assert!(partition.open_layer_len() <= circuit.len());
        let (streamed_changed, streamed_stats) = partition.finish(&mut write_buf);
        written.append(&mut write_buf);
        assert_eq!(partition.open_layer_len(), 0);
        assert_eq!(streamed_changed, changed);
        assert_eq!(streamed_stats.total_operations, stats.total_operations);
        assert_eq!(streamed_stats.t_gates, stats.t_gates);
        assert_eq!(text(&written, 2), text(&whole, 2));
    }
    assert!(changed);
    assert_eq!(
        text(&whole, 2),
        "Rotate 2: ZI\nRotate 1: IZ\nMeasure +: XX\nRotate 2: ZZ\nMeasure -: ZI\n"
    );
}

#[test]
fn the_streaming_driver_goes_on_from_buffer_to_buffer() {
    let input = "Rotate 2: ZI\nRotate 1: XI\nRotate -2: IX\nRotate -1: IZ\nMeasure +: XZ\n";
    let mut whole = ops(input, 2);
    let (changed, t_gates) = push_t_forward_inplace(&mut whole, 2);
    for buffer_length in [1, 2, 3, 100] {
        let mut push = StreamingPush::<Basis8>::new(2);
        let mut emitted = Vec::new();
        for chunk in ops(input, 2).chunks(buffer_length) {
            let mut buffer = chunk.to_vec();
            push.process(&mut buffer);
            emitted.append(&mut buffer);
        }
        let (streamed_changed, stats) = push.finish();
        assert_eq!(streamed_changed, changed);
        assert_eq!(stats.t_gates, t_gates);
        assert_eq!(stats.total_operations, 5);
        assert_eq!(text(&emitted, 2), text(&whole, 2));
    }
    assert_eq!(t_gates, 2);
    assert_eq!(whole.len(), 3);
}

#[test]
fn the_scratch_files_swap_roles() {
    let mut files = ReadWriteSwap::new();
    assert!(files.read());
    assert!(!files.write());
    assert_eq!(files.swap(), SwapAction { truncate_a: true });
    assert!(!files.read());
    assert!(files.write());
    assert_eq!(files.swap(), SwapAction { truncate_a: false });
    assert!(files.read());
}

#[test]
fn preallocation_is_capped() {
    assert_eq!(InMemoryOptimizer::<Basis8>::preallocation(None), 1024);
    assert_eq!(InMemoryOptimizer::<Basis8>::preallocation(Some(7)), 7);
    assert_eq!(
        InMemoryOptimizer::<Basis8>::preallocation(Some(usize::MAX)),
        MAX_PREALLOC_OPERATIONS
    );
    let zero = Stats::zero();
    assert_eq!((zero.total_operations, zero.t_gates), (0, 0));
    assert!(Basis8::can_hold(8));
}

#[test]
fn a_second_run_reads_out_once_more() {
    let once = optimized("Rotate 1: Z\nRotate -1: Z\nMeasure +: Z", 1, false);
    assert_eq!(once, "Measure +: Z\nMeasure +: Z\n");
    let twice = optimized(&once, 1, false);
    assert_eq!(twice, "Measure +: Z\nMeasure +: Z\nMeasure +: Z\n");
    // the circuit before the readout is left as it is
    assert!(twice.starts_with(&once));
}
