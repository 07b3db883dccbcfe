use synth_host::constants::BUFFER_LEN;
use synth_host::output::AudioOutput;

#[test]
fn fresh_output_reads_silence_until_a_block_arrives() {
    let mut out = AudioOutput::new();
    for _ in 0..(3 * BUFFER_LEN) {
        assert_eq!(out.next_sample(), 0);
    }
    assert!(out.can_write());
}

#[test]
fn each_written_block_is_read_exactly_once_in_order() {
    let mut out = AudioOutput::new();
    let block: Vec<i64> = (0..BUFFER_LEN as i64).collect();
    assert!(out.can_write());
    out.write(&block);
    assert!(!out.can_write());
    // the reader drains the block it was holding (silence), then swaps
    for _ in 0..BUFFER_LEN {
        assert_eq!(out.next_sample(), 0);
    }
    assert!(out.can_write());
    // now the written block plays back, each sample exactly once in order
    for i in 0..BUFFER_LEN {
        assert_eq!(out.next_sample(), i as i64);
    }
    // no new block: underrun is silent
    assert_eq!(out.next_sample(), 0);
    assert_eq!(out.next_sample(), 0);
}

#[test]
fn writer_keeping_up_plays_every_block_once() {
    let mut out = AudioOutput::new();
    let mk = |v: i64| vec![v; BUFFER_LEN];
    out.write(&mk(1));
    for _ in 0..BUFFER_LEN {
        out.next_sample();
    }
    // from now on the writer stays one block ahead
    out.write(&mk(2));
    for _ in 0..BUFFER_LEN {
        assert_eq!(out.next_sample(), 1);
    }
    out.write(&mk(3));
    for _ in 0..BUFFER_LEN {
        assert_eq!(out.next_sample(), 2);
    }
    for _ in 0..BUFFER_LEN {
        assert_eq!(out.next_sample(), 3);
    }
    // dropout recovers with the next handoff
    assert_eq!(out.next_sample(), 0);
    out.write(&mk(4));
    // the reader finishes replaying its held buffer, then plays the new block
    for _ in 0..BUFFER_LEN {
        out.next_sample();
    }
    for _ in 0..BUFFER_LEN {
        assert_eq!(out.next_sample(), 4);
    }
}

#[test]
fn underrun_does_not_advance_the_read_position() {
    let mut out = AudioOutput::new();
    assert_eq!(out.index, 0);
    for _ in 0..10 {
        assert_eq!(out.next_sample(), 0);
    }
    assert_eq!(out.index, 0);
    assert!(out.out_of_samples);
}
