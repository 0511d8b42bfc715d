use riaps::adapter_buf::AdapterBuffer;
use riaps::alsa::AlsaAdapter;
use riaps::coreaudio::CoreAudioAdapter;
use riaps::host::{HostAdapter, HostConfig, HostError, HostHandle, NullAdapter};

#[test]
fn null_adapter_lifecycle() {
    let mut a = NullAdapter::new();
    let h = a.initialize(HostConfig::default()).unwrap();
    assert_eq!(h.sample_rate, 96_000);
    assert_eq!(h.block_size, 512);
    a.start().unwrap();
    assert!(matches!(a.start(), Err(HostError::AlreadyRunning)));
    a.stop().unwrap();
    assert!(matches!(a.stop(), Err(HostError::NotRunning)));
}

#[test]
fn null_adapter_needs_initializing() {
    let mut a = NullAdapter::default();
    assert_eq!((a.current_block_size(), a.current_sample_rate()), (0, 0));
    assert!(matches!(a.start(), Err(HostError::NotRunning)));
    let config = HostConfig {
        preferred_sample_rate: 44_100,
        preferred_block_size: 128,
        ..HostConfig::default()
    };
    let handle = a.initialize(config).unwrap();
    assert_eq!(handle, HostHandle { sample_rate: 44_100, block_size: 128 });
    assert_eq!((a.current_block_size(), a.current_sample_rate()), (128, 44_100));
    assert!(a.supports_dynamic_block_size());
    a.start().unwrap();
    a.stop().unwrap();
    a.start().unwrap();
}

#[test]
fn default_configuration() {
    let config = HostConfig::default();
    assert_eq!(config.preferred_sample_rate, 96_000);
    assert_eq!(config.preferred_block_size, 512);
    assert_eq!(config.min_block_size, 64);
    assert_eq!(config.max_block_size, 4096);
    assert_eq!(config.num_input_channels, 2);
    assert_eq!(config.num_output_channels, 2);
}

#[test]
fn alsa_skeleton_does_not_start() {
    let mut a = AlsaAdapter::new();
    assert_eq!((a.current_block_size(), a.current_sample_rate()), (0, 0));
    a.initialize(HostConfig::default()).unwrap();
    assert_eq!((a.current_block_size(), a.current_sample_rate()), (512, 96_000));
    assert!(matches!(a.start(), Err(HostError::Unsupported)));
    assert!(matches!(a.stop(), Err(HostError::NotRunning)));
    assert!(a.supports_dynamic_block_size());
}

#[test]
fn coreaudio_skeleton_does_not_start() {
    let mut a = CoreAudioAdapter::new();
    assert_eq!((a.current_block_size(), a.current_sample_rate()), (0, 0));
    a.initialize(HostConfig::default()).unwrap();
    assert_eq!((a.current_block_size(), a.current_sample_rate()), (512, 96_000));
    assert!(matches!(a.start(), Err(HostError::Backend("参考骨架未链接 CoreAudio；生产实现见 §3.2.4"))));
    assert!(matches!(a.stop(), Err(HostError::NotRunning)));
    assert!(!a.supports_dynamic_block_size());
}

fn hand_on(i: &[f32], o: &mut [f32]) {
    o.copy_from_slice(i);
}

#[test]
fn adapter_buf_mismatched_block_sizes_preserve_stream() {
    let mut buf = AdapterBuffer::new(512, 4096);
    let host_block = 384usize;
    let total = 512 * 6;

    let input: Vec<f32> = (0..total).map(|i| (i + 1) as f32).collect();
    let mut output = Vec::with_capacity(total);

    for chunk in input.chunks(host_block) {
        let mut out = vec![f32::NAN; chunk.len()];
        buf.process_host_block(chunk, &mut out, |i, o| o.copy_from_slice(i));
        output.extend_from_slice(&out);
    }

    let expected_latency = buf.theoretical_latency(host_block);
    assert_eq!(expected_latency, 384);

    for (i, &v) in output[..expected_latency].iter().enumerate() {
        assert_eq!(v, 0.0, "sample {i} should be silent, got {v}");
    }

    let data_len = output.len() - expected_latency;
    for i in 0..data_len {
        assert_eq!(output[expected_latency + i], input[i], "the stream breaks at sample {i}");
    }

    assert_eq!(buf.dropped_input_samples(), 0);
}

#[test]
fn aligned_blocks_zero_extra_latency() {
    let mut buf = AdapterBuffer::new(256, 1024);
    let input: Vec<f32> = (0..256).map(|i| i as f32 + 1.0).collect();
    let mut out = vec![0.0f32; 256];
    buf.process_host_block(&input, &mut out, |i, o| o.copy_from_slice(i));
    assert_eq!(out, input);
    assert_eq!(buf.pending_output(), 0);
    assert_eq!(buf.theoretical_latency(256), 0);
}

#[test]
fn aligned_blocks_zero_extra_latency_after_first() {
    let mut buf = AdapterBuffer::new(256, 1024);
    let input: Vec<f32> = (0..256).map(|i| i as f32 + 1.0).collect();
    let mut out = vec![0.0f32; 256];
    buf.process_host_block(&input, &mut out, |i, o| o.copy_from_slice(i));
    assert_eq!(out, input);
    assert_eq!(buf.pending_output(), 0);
}

#[test]
fn extreme_mismatch_ratio() {
    let mut buf = AdapterBuffer::new(512, 8192);
    let host_block = 64usize;
    let total = 512 * 4;
    let input: Vec<f32> = (0..total).map(|i| (i + 1) as f32).collect();
    let mut output = Vec::with_capacity(total);

    for chunk in input.chunks(host_block) {
        let mut out = vec![0.0f32; chunk.len()];
        buf.process_host_block(chunk, &mut out, |i, o| o.copy_from_slice(i));
        output.extend_from_slice(&out);
    }

    let expected_latency = buf.theoretical_latency(host_block);
    assert_eq!(expected_latency, 448);

    for (i, &v) in output[..expected_latency].iter().enumerate() {
        assert_eq!(v, 0.0, "sample {i} should be silent");
    }
    let data_len = output.len() - expected_latency;
    for i in 0..data_len {
        assert_eq!(output[expected_latency + i], input[i], "the stream breaks at sample {i}");
    }
}

#[test]
fn host_larger_than_dsp() {
    let mut buf = AdapterBuffer::new(128, 4096);
    let host_block = 512;
    let input: Vec<f32> = (0..host_block).map(|i| (i + 1) as f32).collect();
    let mut out = vec![0.0f32; host_block];

    buf.process_host_block(&input, &mut out, |i, o| o.copy_from_slice(i));

    assert_eq!(buf.theoretical_latency(host_block), 0);
    assert_eq!(out, input);
}

#[test]
fn capacity_overflow_truncates_safely() {
    let mut buf = AdapterBuffer::new(4, 16);
    let huge = vec![1.0f32; 32];
    let mut out = vec![0.0f32; 32];
    buf.process_host_block(&huge, &mut out, |i, o| o.copy_from_slice(i));
    assert!(buf.dropped_input_samples() > 0);
    assert_eq!(buf.dropped_input_samples(), 16);
    assert_eq!(buf.zero_filled_samples(), 16);
    assert_eq!(out[..16], [1.0; 16]);
    assert_eq!(out[16..], [0.0; 16]);
}

#[test]
fn long_running_stream_continuity() {
    let mut buf = AdapterBuffer::new(256, 2048);
    let host_block = 192;
    let total_callbacks = 500;
    let mut global_output = Vec::new();

    for cb in 0..total_callbacks {
        let start = cb * host_block;
        let input: Vec<f32> = (start..start + host_block).map(|i| (i + 1) as f32).collect();
        let mut out = vec![0.0f32; host_block];
        buf.process_host_block(&input, &mut out, |i, o| o.copy_from_slice(i));
        global_output.extend_from_slice(&out);
    }

    let latency = buf.theoretical_latency(host_block);
    let data = &global_output[latency..];
    for i in 0..data.len() {
        assert_eq!(data[i], (i + 1) as f32, "the stream breaks at sample {i}");
    }
    assert_eq!(buf.dropped_input_samples(), 0);
}

#[test]
fn reset_clears_state() {
    let mut buf = AdapterBuffer::new(128, 512);
    let input = vec![1.0f32; 64];
    let mut out = vec![0.0f32; 64];
    buf.process_host_block(&input, &mut out, |i, o| o.copy_from_slice(i));
    assert!(buf.accumulated() > 0 || buf.pending_output() > 0 || buf.zero_filled_samples() > 0);
    buf.reset();
    assert_eq!(buf.accumulated(), 0);
    assert_eq!(buf.pending_output(), 0);
    assert_eq!(buf.zero_filled_samples(), 0);
    assert_eq!(buf.dropped_input_samples(), 0);
    assert_eq!(buf.dropped_output_samples(), 0);
    assert_eq!(buf.target_block_size(), 128);
}

#[test]
fn theoretical_latency_of_odd_ratios() {
    let buf = AdapterBuffer::<f32>::new(512, 1024);
    assert_eq!(buf.theoretical_latency(0), 0);
    assert_eq!(buf.theoretical_latency(1), 511);
    assert_eq!(buf.theoretical_latency(100), 500);
    assert_eq!(buf.theoretical_latency(256), 256);
    assert_eq!(buf.theoretical_latency(511), 511);
    assert_eq!(buf.theoretical_latency(512), 0);
    assert_eq!(buf.theoretical_latency(513), 0);
}

#[test]
fn reserve_settles_at_a_block_less_the_divisor() {
    let gcd = |mut a: usize, mut b: usize| {
        while b > 0 {
            (a, b) = (b, a % b);
        }
        a
    };
    for (host, block) in [(100, 512), (384, 256), (96, 128), (7, 12), (12, 12), (5, 1)] {
        let mut buf = AdapterBuffer::new(block, 2048);
        let input = vec![1.0f32; host];
        let mut out = vec![0.0f32; host];
        for _ in 0..block {
            buf.process_host_block(&input, &mut out, hand_on);
        }
        let reserve = block - gcd(host, block);
        assert_eq!(buf.zero_filled_samples(), reserve as u64);
        assert_eq!(buf.accumulated() + buf.pending_output(), reserve);
        for _ in 0..100 {
            buf.process_host_block(&input, &mut out, hand_on);
        }
        assert_eq!(buf.zero_filled_samples(), reserve as u64);
        assert_eq!(buf.dropped_input_samples(), 0);
    }
}

#[test]
fn every_sample_is_delivered_once() {
    let mut buf = AdapterBuffer::new(4, 32);
    let mut sent = Vec::new();
    let mut heard = Vec::new();
    for (offered, wanted) in [(3, 2), (0, 5), (7, 1), (2, 0), (1, 9), (11, 4)] {
        let input: Vec<f32> = (0..offered).map(|i| (sent.len() + i + 1) as f32).collect();
        let mut out = vec![-1.0f32; wanted];
        buf.process_host_block(&input, &mut out, hand_on);
        sent.extend_from_slice(&input);
        heard.extend(out.into_iter().filter(|&v| v != 0.0));
    }
    assert_eq!(heard[..], sent[..heard.len()]);
    assert_eq!(heard.len() + buf.accumulated() + buf.pending_output(), sent.len());
}

#[test]
fn output_queue_never_outgrows_the_capacity() {
    let mut buf = AdapterBuffer::new(4, 8);
    for call in 0..3 {
        let input: Vec<f32> = (1..=4).map(|i| (call * 4 + i) as f32).collect();
        buf.process_host_block(&input, &mut [], hand_on);
    }
    assert_eq!(buf.pending_output(), 8);
    assert_eq!(buf.dropped_output_samples(), 4);
    assert_eq!(buf.dropped_input_samples(), 0);
    let mut out = [0.0f32; 10];
    buf.process_host_block(&[], &mut out, hand_on);
    assert_eq!(out, [1.0, 2.0, 3.0, 4.0, 5.0, 6.0, 7.0, 8.0, 0.0, 0.0]);
    assert_eq!(buf.pending_output(), 0);
    assert_eq!(buf.zero_filled_samples(), 2);
}

#[test]
fn what_the_host_wants_needs_no_room() {
    let mut buf = AdapterBuffer::new(4, 8);
    buf.process_host_block(&[1.0, 2.0, 3.0, 4.0, 5.0, 6.0, 7.0, 8.0], &mut [0.0; 2], hand_on);
    assert_eq!(buf.pending_output(), 6);
    let mut out = [0.0f32; 10];
    let more = [9.0, 10.0, 11.0, 12.0, 13.0, 14.0, 15.0, 16.0];
    buf.process_host_block(&more, &mut out, hand_on);
    assert_eq!(out, [3.0, 4.0, 5.0, 6.0, 7.0, 8.0, 9.0, 10.0, 11.0, 12.0]);
    assert_eq!(buf.pending_output(), 4);
    assert_eq!(buf.dropped_output_samples(), 0);
}

#[test]
fn processor_gets_whole_blocks_in_order() {
    let mut buf = AdapterBuffer::new(3, 16);
    let mut blocks = Vec::new();
    let mut out = [0.0f32; 8];
    buf.process_host_block(&[1.0, 2.0, 3.0, 4.0, 5.0, 6.0, 7.0], &mut out, |i, o| {
        blocks.push(i.to_vec());
        for (o, i) in o.iter_mut().zip(i) {
            *o = i * 10.0;
        }
    });
    assert_eq!(blocks, vec![vec![1.0, 2.0, 3.0], vec![4.0, 5.0, 6.0]]);
    assert_eq!(out, [10.0, 20.0, 30.0, 40.0, 50.0, 60.0, 0.0, 0.0]);
    assert_eq!(buf.accumulated(), 1);
    assert_eq!(buf.zero_filled_samples(), 2);
}
