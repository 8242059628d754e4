use open_headstage::convolution::{ConvolutionEngine, ConvolutionPath};

const TOLERANCE: f32 = 1e-3;

fn q16(x: f32) -> i32 {
    (x * 65536.0).round() as i32
}

fn to_q16(xs: &[f32]) -> Vec<i32> {
    xs.iter().map(|&x| q16(x)).collect()
}

fn assert_approx_eq_slice(a: &[i32], b: &[i32], tolerance: f32, msg: &str) {
    assert_eq!(a.len(), b.len(), "Slice length mismatch in '{}'", msg);
    for (i, (x, y)) in a.iter().zip(b.iter()).enumerate() {
        let xf = *x as f32 / 65536.0;
        let yf = *y as f32 / 65536.0;
        assert!(
            (xf - yf).abs() < tolerance,
            "Mismatch at index {} in '{}': {} vs {}",
            i,
            msg,
            xf,
            yf
        );
    }
}

fn make_ir(samples: &[f32]) -> Vec<i32> {
    to_q16(samples)
}

#[test]
fn test_identity_ir_passthrough() {
    let mut engine = ConvolutionEngine::new();
    engine.set_ir(ConvolutionPath::Lsl, &make_ir(&[1.0]));
    engine.set_ir(ConvolutionPath::Lsr, &make_ir(&[0.0]));
    engine.set_ir(ConvolutionPath::Rsl, &make_ir(&[0.0]));
    engine.set_ir(ConvolutionPath::Rsr, &make_ir(&[1.0]));

    let block_size = 512;
    let input_l: Vec<i32> = (0..block_size)
        .map(|i| q16((i as f32 * 0.1).sin()))
        .collect();
    let input_r: Vec<i32> = (0..block_size)
        .map(|i| q16((i as f32 * -0.1).sin()))
        .collect();
    let mut output_l = vec![0; block_size];
    let mut output_r = vec![0; block_size];

    engine.process_block(&input_l, &input_r, &mut output_l, &mut output_r);
    // The first block may be subject to startup latency; check the second.
    engine.process_block(&input_l, &input_r, &mut output_l, &mut output_r);

    assert_approx_eq_slice(&output_l, &input_l, TOLERANCE, "Identity passthrough L channel");
    assert_approx_eq_slice(&output_r, &input_r, TOLERANCE, "Identity passthrough R channel");
}

#[test]
fn test_delay_ir() {
    let mut engine = ConvolutionEngine::new();
    let block_size = 512;
    let delay_samples = 5;
    let mut ir = vec![0.0f32; delay_samples + 1];
    ir[delay_samples] = 1.0;

    engine.set_ir(ConvolutionPath::Lsl, &make_ir(&ir));
    engine.set_ir(ConvolutionPath::Lsr, &make_ir(&[0.0]));
    engine.set_ir(ConvolutionPath::Rsl, &make_ir(&[0.0]));
    engine.set_ir(ConvolutionPath::Rsr, &make_ir(&[0.0]));

    let mut input_l = vec![0; block_size * 2];
    for (i, sample) in input_l.iter_mut().enumerate() {
        *sample = q16(i as f32);
    }
    let input_r = vec![0; block_size * 2];
    let mut output_l = vec![0; block_size * 2];
    let mut output_r = vec![0; block_size * 2];

    engine.process_block(&input_l, &input_r, &mut output_l, &mut output_r);

    let mut expected_output = vec![0; block_size * 2];
    let end_index = block_size * 2;
    expected_output[delay_samples..end_index]
        .copy_from_slice(&input_l[..(end_index - delay_samples)]);

    assert_approx_eq_slice(
        &output_l[delay_samples..],
        &expected_output[delay_samples..],
        TOLERANCE,
        "Delayed signal",
    );
}

#[test]
fn test_long_ir_partitioning() {
    let mut engine = ConvolutionEngine::new();
    let block_size = 512;
    let ir_len = block_size + block_size / 2;
    let mut ir = vec![0.0f32; ir_len];
    ir[0] = 1.0;
    ir[ir_len - 1] = 0.5;

    engine.set_ir(ConvolutionPath::Lsl, &make_ir(&ir));
    assert_eq!(
        engine.path_lsl.ir_partitions.len(),
        2,
        "IR should be split into 2 partitions"
    );

    let mut input_l = vec![0; block_size * 3];
    input_l[0] = q16(1.0);
    let input_r = vec![0; block_size * 3];
    let mut output_l = vec![0; block_size * 3];
    let mut output_r = vec![0; block_size * 3];

    engine.process_block(&input_l, &input_r, &mut output_l, &mut output_r);

    let mut expected_output = vec![0; block_size * 3];
    expected_output[0] = q16(1.0);
    expected_output[ir_len - 1] = q16(0.5);

    assert_approx_eq_slice(
        &output_l[0..ir_len],
        &expected_output[0..ir_len],
        TOLERANCE,
        "Long IR convolution",
    );
}

#[test]
fn test_default_trait_produces_valid_engine() {
    let mut engine_default = ConvolutionEngine::default();
    let input_l = vec![0; 128];
    let input_r = vec![0; 128];
    let mut output_l = vec![0; 128];
    let mut output_r = vec![0; 128];
    engine_default.process_block(&input_l, &input_r, &mut output_l, &mut output_r);
}

#[test]
fn test_new_engine_is_passthrough() {
    // The engine constructs every path silent; passthrough is installed
    // explicitly, with an internal block matching the buffer length so no
    // startup latency is visible.
    let mut engine = ConvolutionEngine::with_block_size(64);
    engine.set_ir(ConvolutionPath::Lsl, &make_ir(&[1.0]));
    engine.set_ir(ConvolutionPath::Lsr, &make_ir(&[0.0]));
    engine.set_ir(ConvolutionPath::Rsl, &make_ir(&[0.0]));
    engine.set_ir(ConvolutionPath::Rsr, &make_ir(&[1.0]));
    let input_l: Vec<i32> = (1..=64).map(|x| q16(x as f32 * 0.1)).collect();
    let input_r: Vec<i32> = (1..=64).map(|x| q16(x as f32 * -0.1)).collect();
    let mut output_l = vec![0; input_l.len()];
    let mut output_r = vec![0; input_r.len()];

    engine.process_block(&input_l, &input_r, &mut output_l, &mut output_r);

    assert_approx_eq_slice(&output_l, &input_l, TOLERANCE, "Default engine LSL passthrough");
    assert_approx_eq_slice(&output_r, &input_r, TOLERANCE, "Default engine RSR passthrough");
}

#[test]
fn test_set_ir_updates_path_properties() {
    let mut engine = ConvolutionEngine::new();
    let block_size = 512;
    let test_ir_samples = make_ir(&[0.1, 0.2, 0.3]);
    let original_ir_len = test_ir_samples.len();
    engine.set_ir(ConvolutionPath::Lsl, &test_ir_samples);

    assert_eq!(engine.path_lsl.ir_len, original_ir_len, "LSL ir_len after set_ir");
    assert!(
        !engine.path_lsl.ir_partitions.is_empty(),
        "LSL ir_fft should be populated"
    );
    assert_eq!(engine.path_lsl.ir_partitions.len(), 1, "LSL ir_fft length");
    assert_eq!(
        engine.path_lsl.ir_partitions[0].len(),
        block_size,
        "LSL partition length"
    );

    assert_eq!(
        engine.path_lsl.overlap_tail.len(),
        block_size,
        "LSL overlap_buffer length"
    );
    assert!(
        engine.path_lsl.overlap_tail.iter().all(|&x| x == 0),
        "LSL overlap_buffer initialized to zeros"
    );

    engine.set_ir(ConvolutionPath::Lsr, &vec![]);
    assert_eq!(engine.path_lsr.ir_len, 0, "LSR ir_len for empty IR");
    assert!(
        engine
            .path_lsr
            .ir_partitions
            .iter()
            .all(|p| p.iter().all(|&c| c == 0)),
        "LSR ir_fft for empty IR should be zeros"
    );
}

#[test]
fn test_identity_ir_single_path_passthrough_fft() {
    let block_size = 128;
    let mut engine = ConvolutionEngine::with_block_size(block_size);

    engine.set_ir(ConvolutionPath::Lsl, &make_ir(&[1.0]));
    engine.set_ir(ConvolutionPath::Lsr, &make_ir(&[0.0]));
    engine.set_ir(ConvolutionPath::Rsl, &make_ir(&[0.0]));
    engine.set_ir(ConvolutionPath::Rsr, &make_ir(&[0.0]));

    let input_signal: Vec<i32> = (1..=block_size).map(|x| q16(x as f32 * 0.1)).collect();
    let silent_input: Vec<i32> = vec![0; block_size];
    let mut output_left = vec![0; block_size];
    let mut output_right = vec![0; block_size];

    engine.process_block(&input_signal, &silent_input, &mut output_left, &mut output_right);
    assert_approx_eq_slice(&output_left, &input_signal, TOLERANCE, "Identity LSL FFT block 1");
    assert_approx_eq_slice(
        &output_right,
        &silent_input,
        TOLERANCE,
        "Mute paths output_right FFT block 1",
    );

    let input_signal2: Vec<i32> = (block_size + 1..=2 * block_size)
        .map(|x| q16(x as f32 * 0.1))
        .collect();
    let mut output_left2 = vec![0; block_size];
    let mut output_right2 = vec![0; block_size];
    engine.process_block(&input_signal2, &silent_input, &mut output_left2, &mut output_right2);
    assert_approx_eq_slice(&output_left2, &input_signal2, TOLERANCE, "Identity LSL FFT block 2");
}

#[test]
fn test_delay_ir_single_path_fft() {
    let block_size = 5;
    let mut engine = ConvolutionEngine::with_block_size(block_size);
    let delay_samples = 1;
    let ir_delay = {
        let mut v = vec![0.0f32; delay_samples + 1];
        v[delay_samples] = 1.0;
        make_ir(&v)
    };

    engine.set_ir(ConvolutionPath::Lsl, &ir_delay);
    engine.set_ir(ConvolutionPath::Lsr, &make_ir(&[0.0]));
    engine.set_ir(ConvolutionPath::Rsl, &make_ir(&[0.0]));
    engine.set_ir(ConvolutionPath::Rsr, &make_ir(&[0.0]));

    let input_block1 = to_q16(&[1.0, 2.0, 3.0, 4.0, 5.0]);
    let expected_block1_out = to_q16(&[0.0, 1.0, 2.0, 3.0, 4.0]);

    let silent_input: Vec<i32> = vec![0; block_size];
    let mut output_l1 = vec![0; block_size];
    let mut output_r1 = vec![0; block_size];

    engine.process_block(&input_block1, &silent_input, &mut output_l1, &mut output_r1);
    assert_approx_eq_slice(
        &output_l1,
        &expected_block1_out,
        TOLERANCE,
        "1-sample delay LSL FFT, block 1",
    );

    let input_block2 = to_q16(&[6.0, 7.0, 8.0, 9.0, 10.0]);
    let expected_block2_out = to_q16(&[5.0, 6.0, 7.0, 8.0, 9.0]);
    let mut output_l2 = vec![0; block_size];
    let mut output_r2 = vec![0; block_size];
    engine.process_block(&input_block2, &silent_input, &mut output_l2, &mut output_r2);
    assert_approx_eq_slice(
        &output_l2,
        &expected_block2_out,
        TOLERANCE,
        "1-sample delay LSL FFT, block 2",
    );
}

#[test]
fn test_stereo_interaction_default_passthrough_fft() {
    let block_size = 128;
    let mut engine = ConvolutionEngine::with_block_size(block_size);
    engine.set_ir(ConvolutionPath::Lsl, &make_ir(&[1.0]));
    engine.set_ir(ConvolutionPath::Rsr, &make_ir(&[1.0]));
    let input_l: Vec<i32> = (1..=block_size).map(|x| q16(x as f32 * 0.1)).collect();
    let input_r: Vec<i32> = (1..=block_size).map(|x| q16(x as f32 * -0.2)).collect();
    let mut output_l = vec![0; block_size];
    let mut output_r = vec![0; block_size];

    engine.process_block(&input_l, &input_r, &mut output_l, &mut output_r);
    assert_approx_eq_slice(&output_l, &input_l, TOLERANCE, "Stereo passthrough FFT output_l");
    assert_approx_eq_slice(&output_r, &input_r, TOLERANCE, "Stereo passthrough FFT output_r");
}

#[test]
fn test_empty_ir_mutes_path_fft() {
    let block_size = 64;
    let mut engine = ConvolutionEngine::with_block_size(block_size);
    engine.set_ir(ConvolutionPath::Lsl, &make_ir(&[]));
    engine.set_ir(ConvolutionPath::Rsr, &make_ir(&[1.0]));

    let input_signal: Vec<i32> = (1..=block_size).map(|x| q16(x as f32)).collect();
    let mut output_l = vec![0; block_size];
    let mut output_r = vec![0; block_size];

    engine.process_block(&input_signal, &input_signal, &mut output_l, &mut output_r);

    let expected_output_l = vec![0; block_size];
    let expected_output_r = input_signal.clone();

    assert_approx_eq_slice(
        &output_l,
        &expected_output_l,
        TOLERANCE,
        "Empty LSL IR mutes L-channel output from L-input",
    );
    assert_approx_eq_slice(
        &output_r,
        &expected_output_r,
        TOLERANCE,
        "Empty LSL IR does not affect RSR path",
    );
}

#[test]
fn test_averaging_ir_triangular_response() {
    // A unit impulse through the two-tap averaging response [0.5, 0.5]
    // must reproduce the triangular response exactly.
    let block_size = 64;
    let mut engine = ConvolutionEngine::with_block_size(block_size);
    engine.set_ir(ConvolutionPath::Lsl, &make_ir(&[0.5, 0.5]));
    engine.set_ir(ConvolutionPath::Lsr, &make_ir(&[0.0]));
    engine.set_ir(ConvolutionPath::Rsl, &make_ir(&[0.0]));
    engine.set_ir(ConvolutionPath::Rsr, &make_ir(&[0.0]));

    let mut input_l = vec![0; block_size];
    input_l[0] = q16(1.0);
    let input_r = vec![0; block_size];
    let mut output_l = vec![0; block_size];
    let mut output_r = vec![0; block_size];

    engine.process_block(&input_l, &input_r, &mut output_l, &mut output_r);

    assert_eq!(output_l[0], q16(0.5), "first tap of the triangular response");
    assert_eq!(output_l[1], q16(0.5), "second tap of the triangular response");
    for k in 2..block_size {
        assert_eq!(output_l[k], 0, "silence after the triangular response");
    }
    assert!(output_r.iter().all(|&v| v == 0), "right ear stays silent");
}

#[test]
fn test_partition_count_exact_block() {
    let block_size = 64;
    let mut engine = ConvolutionEngine::with_block_size(block_size);
    engine.set_ir(ConvolutionPath::Lsl, &vec![q16(1.0); block_size]);
    assert_eq!(engine.path_lsl.ir_partitions.len(), 1, "one full block, one partition");
    engine.set_ir(ConvolutionPath::Lsl, &vec![q16(1.0); block_size + block_size / 2]);
    assert_eq!(engine.path_lsl.ir_partitions.len(), 2, "1.5 blocks, two partitions");
}

#[test]
fn test_startup_latency_fills_with_silence() {
    // A host buffer shorter than the internal block cannot be served on
    // the first call: the engine owes silence, not garbage.
    let mut engine = ConvolutionEngine::with_block_size(8);
    engine.set_ir(ConvolutionPath::Lsl, &make_ir(&[1.0]));
    engine.set_ir(ConvolutionPath::Rsr, &make_ir(&[1.0]));
    let input: Vec<i32> = (1..=4).map(|x| q16(x as f32 * 0.25)).collect();
    let mut out_l = vec![123; 4];
    let mut out_r = vec![123; 4];
    engine.process_block(&input, &input, &mut out_l, &mut out_r);
    assert_eq!(out_l, vec![0; 4], "startup shortfall is silence on the left");
    assert_eq!(out_r, vec![0; 4], "startup shortfall is silence on the right");
    // The second call completes an internal block and repays the samples
    // held back during startup.
    engine.process_block(&input, &input, &mut out_l, &mut out_r);
    assert_eq!(&out_l[..], &input[..], "delayed samples arrive with the second call");
}
