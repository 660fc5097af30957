use canutil::stats::FrameStats;

#[test]
fn stats_count_by_format() {
    let mut s = FrameStats::new();
    s.record(true, false, false, 0x1234_5678);
    s.record(true, true, true, 0x1234_5678);
    s.record(false, false, true, 0x7ff);
    assert_eq!(s.rx_frames, 3);
    assert_eq!(s.eff_frames_total, 2);
    assert_eq!(s.eff_frames_err, 1);
    assert_eq!(s.eff_frames_rtr, 1);
    assert_eq!(s.sff_frames_total, 1);
    assert_eq!(s.sff_frames_err, 0);
    assert_eq!(s.sff_frames_rtr, 1);
}

#[test]
fn stats_counts_in_id_order() {
    let mut s = FrameStats::new();
    for id in [0x300u32, 0x100, 0x200, 0x100, 0x300, 0x100, 0x050] {
        s.record(false, false, false, id);
    }
    assert_eq!(
        s.counts_by_id(),
        vec![(0x050, 1), (0x100, 3), (0x200, 1), (0x300, 2)]
    );
}

#[test]
fn stats_counter_saturates() {
    let mut s = FrameStats::new();
    s.rx_frames = u64::MAX;
    s.record(false, false, false, 1);
    assert_eq!(s.rx_frames, u64::MAX);
    assert_eq!(s.sff_frames_total, 1);
}
