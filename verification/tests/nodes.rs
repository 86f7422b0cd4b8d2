use raa::nodes::isqrt;
use raa::nodes::Chainable;
use raa::nodes::FFT;
use raa::nodes::RMS;

#[test]
fn isqrt_exact_values() {
    assert_eq!(isqrt(0), 0);
    assert_eq!(isqrt(1), 1);
    assert_eq!(isqrt(2), 1);
    assert_eq!(isqrt(3), 1);
    assert_eq!(isqrt(4), 2);
    assert_eq!(isqrt(15), 3);
    assert_eq!(isqrt(16), 4);
    assert_eq!(isqrt(1_000_000), 1000);
    assert_eq!(isqrt(u64::MAX), 4294967295);
}

#[test]
fn rms_constant_buffer_is_magnitude() {
    // A constant signal of value v has root-mean-square exactly |v|.
    let mut node = RMS::new();
    assert!(node.output().is_empty());
    node.update(&vec![vec![5, 5, 5, 5]]);
    assert_eq!(node.output(), &vec![5i64]);
}

#[test]
fn rms_constant_negative_buffer_is_magnitude() {
    let mut node = RMS::new();
    node.update(&vec![vec![-3, -3]]);
    assert_eq!(node.output(), &vec![3i64]);
}

#[test]
fn rms_means_across_channels() {
    // Per-channel root-mean-square (3 and 5), arithmetic mean across the
    // two channels: 4.
    let mut node = RMS::new();
    node.update(&vec![vec![3, 3, 3], vec![5, 5, 5]]);
    assert_eq!(node.output(), &vec![4i64]);
}

#[test]
fn rms_replaces_output_each_delivery() {
    let mut node = RMS::new();
    node.update(&vec![vec![9, 9]]);
    assert_eq!(node.output(), &vec![9i64]);
    node.update(&vec![vec![2, 2]]);
    assert_eq!(node.output(), &vec![2i64]);
}

#[test]
fn rms_of_no_channels_is_silence() {
    let mut node = RMS::new();
    node.update(&vec![]);
    assert_eq!(node.output(), &vec![0i64]);
}

#[test]
fn rms_large_samples_do_not_overflow() {
    let mut node = RMS::new();
    node.update(&vec![vec![i32::MIN; 8]]);
    assert_eq!(node.output(), &vec![2147483648i64]);
}

#[test]
fn fft_accumulates_until_minimum_window() {
    // At 44100 Hz the minimum window is 44100 / (65 / 2) = 1378 samples
    // (integer arithmetic). The output stays empty and no window is handed
    // out until the accumulated samples reach it.
    let mut node = FFT::new();
    let w = node.update(&vec![vec![7; 1377]], 44100);
    assert!(w.is_none());
    assert!(node.output().is_empty());
    // One more sample crosses the threshold: the whole accumulated window
    // comes out and the internal buffer starts over.
    let w = node.update(&vec![vec![7; 1]], 44100);
    let window = w.unwrap();
    assert_eq!(window.len(), 1378);
    assert!(window.iter().all(|s| *s == 7));
    assert!(node.output().is_empty());
    // The buffer reset: the next delivery accumulates from zero again.
    let w = node.update(&vec![vec![7; 1377]], 44100);
    assert!(w.is_none());
}

#[test]
fn fft_output_is_stored_spectrum() {
    let mut node = FFT::new();
    let w = node.update(&vec![vec![1; 100]], 3200);
    // 3200 / 32 = 100: exactly one window.
    let window = w.unwrap();
    assert_eq!(window.len(), 100);
    node.store_spectrum(vec![4, 5, 6]);
    assert_eq!(node.output(), &vec![4i64, 5, 6]);
}

#[test]
fn fft_window_through_real_transform() {
    // Run a handed-out window through the actual transform kernel and
    // store the real components, as the capture loop does. For a constant
    // signal the zero-frequency bin carries the whole energy: n * v.
    let mut node = FFT::new();
    let window = node.update(&vec![vec![1000; 100]], 3200).unwrap();
    assert_eq!(window.len(), 100);
    let mut planner = rustfft::FftPlanner::<f32>::new();
    let fft = planner.plan_fft_forward(window.len());
    let mut buf: Vec<rustfft::num_complex::Complex<f32>> = window
        .iter()
        .map(|s| rustfft::num_complex::Complex { re: *s as f32, im: 0.0 })
        .collect();
    fft.process(&mut buf);
    let spectrum: Vec<i64> = buf.iter().map(|c| c.re as i64).collect();
    node.store_spectrum(spectrum);
    // Output length equals the window size, and the zero bin is the sum.
    assert_eq!(node.output().len(), 100);
    assert_eq!(node.output()[0], 100_000);
    assert!(node.output()[1].abs() < 100);
}

#[test]
fn chainable_dispatches_by_variant() {
    let mut level = Chainable::RMS(RMS::new());
    let w = level.update(&vec![vec![6, 6]], 44100);
    assert!(w.is_none());
    assert_eq!(level.output(), &vec![6i64]);

    let mut spectrum = Chainable::FFT(FFT::new());
    let w = spectrum.update(&vec![vec![2; 100]], 3200);
    assert_eq!(w.unwrap().len(), 100);
    spectrum.store_spectrum(vec![1, 2]);
    assert_eq!(spectrum.output(), &vec![1i64, 2]);
}
