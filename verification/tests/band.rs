use reconstruct::band_decompress::{
    fft_size_for, floor_div, saturate, BandSetupBuilder, BinOffset, SetupError, TIMEOUT,
};
use reconstruct::bins::BinRange;

fn builder(compression_bins: u16) -> BandSetupBuilder<Vec<u8>, Vec<u8>> {
    BandSetupBuilder::new(Vec::new(), compression_bins)
}

#[test]
fn fft_size_is_next_power_of_two() {
    assert_eq!(fft_size_for(1500), Some(2048));
    assert_eq!(fft_size_for(2048), Some(2048));
    assert_eq!(fft_size_for(2049), Some(4096));
    assert_eq!(fft_size_for(0), Some(1));
    assert_eq!(fft_size_for(1), Some(1));
    assert_eq!(fft_size_for(2), Some(2));
    assert_eq!(fft_size_for(3), Some(4));
    assert_eq!(fft_size_for(32768), Some(32768));
    assert_eq!(fft_size_for(32769), None);
    assert_eq!(fft_size_for(u16::MAX), None);
}

#[test]
fn fft_size_agrees_with_std() {
    for bins in 0..=u16::MAX {
        assert_eq!(fft_size_for(bins), bins.checked_next_power_of_two());
    }
}

#[test]
fn default_setup_spans_the_spectrum() {
    let setup = builder(2048)
        .compressed_bandwidth(100_000_000)
        .center_frequency(0)
        .bins(2048)
        .build()
        .unwrap();
    assert_eq!(setup.fc_bins(), 0);
    assert_eq!(setup.bin_offset, BinOffset { numerator: 0, denominator: 100_000_000 });
    assert_eq!(setup.bins(), BinRange { start: 0, len: 2048, size: 2048 });
    assert_eq!(setup.fft_size, 2048);
    assert_eq!(setup.timeout, 100);
    assert_eq!(TIMEOUT, 100);
    assert!(setup.time_log.is_none());
}

#[test]
fn builder_defaults() {
    let b = builder(1024);
    assert_eq!(b.compressed_bandwidth, 100_000_000);
    assert_eq!(b.center_frequency, 0);
    assert_eq!(b.bins, 2048);
    assert_eq!(b.compression_bins, 1024);
    assert_eq!(b.timeout, 100);
    assert!(b.time_log.is_none());
}

#[test]
fn builder_setters_change_one_field() {
    let b = builder(2048).center_frequency(-5).bins(7).timeout(250).compressed_bandwidth(9);
    assert_eq!(b.center_frequency, -5);
    assert_eq!(b.bins, 7);
    assert_eq!(b.timeout, 250);
    assert_eq!(b.compressed_bandwidth, 9);
    assert_eq!(b.compression_bins, 2048);
    let b = b.time_log(vec![1u8]);
    assert_eq!(b.time_log, Some(vec![1u8]));
    assert_eq!(b.bins, 7);
}

#[test]
fn build_rounds_fft_size_up() {
    let setup = builder(2048).bins(1500).build().unwrap();
    assert_eq!(setup.fft_size, 2048);
    assert_eq!(setup.bins().width(), 1500);
    let setup = builder(4096).bins(2049).build().unwrap();
    assert_eq!(setup.fft_size, 4096);
}

#[test]
fn build_splits_positive_offset() {
    let setup = builder(2048).center_frequency(2_400_000).bins(64).build().unwrap();
    // 2048 * 2.4e6 / 1e8 = 49.152
    assert_eq!(setup.fc_bins, 49);
    assert_eq!(setup.bin_offset, BinOffset { numerator: 15_200_000, denominator: 100_000_000 });
    assert_eq!(setup.bins(), BinRange { start: 1024 + 49 - 32, len: 64, size: 2048 });
}

#[test]
fn build_floors_negative_offset() {
    let setup = builder(2048).center_frequency(-2_400_000).bins(64).build().unwrap();
    // 2048 * -2.4e6 / 1e8 = -49.152 = -50 + 0.848
    assert_eq!(setup.fc_bins, -50);
    assert_eq!(setup.bin_offset, BinOffset { numerator: 84_800_000, denominator: 100_000_000 });
    assert_eq!(setup.bins(), BinRange { start: 1024 - 50 - 32, len: 64, size: 2048 });
}

#[test]
fn build_round_trip_holds() {
    for cf in [-2_000_000_000i32, -100_000_001, -1, 0, 1, 99_999_999, i32::MAX, i32::MIN] {
        for bw in [1u32, 3, 100_000_000, u32::MAX] {
            for cb in [1u16, 2048, u16::MAX] {
                let setup = builder(cb).center_frequency(cf).compressed_bandwidth(bw).bins(1).build().unwrap();
                let exact = cb as i128 * cf as i128;
                assert_eq!(
                    setup.fc_bins as i128 * bw as i128 + setup.bin_offset.numerator as i128,
                    exact
                );
                assert!(setup.bin_offset.numerator < bw);
                assert_eq!(setup.bin_offset.denominator, bw);
            }
        }
    }
}

#[test]
fn build_band_near_the_edge_wraps() {
    let setup = builder(2048).center_frequency(49_000_000).bins(128).build().unwrap();
    // 2048 * 49e6 / 1e8 = 1003.52
    assert_eq!(setup.fc_bins, 1003);
    assert_eq!(setup.bins(), BinRange { start: 1963, len: 128, size: 2048 });
    assert!(setup.bins().contains_bin(2047));
    assert!(setup.bins().contains_bin(0));
    assert!(setup.bins().contains_bin(42));
    assert!(!setup.bins().contains_bin(43));
}

#[test]
fn build_refuses_bad_setups() {
    assert_eq!(builder(2048).bins(32769).build().err(), Some(SetupError::FftSizeTooLarge));
    assert_eq!(
        builder(0).bins(40000).compressed_bandwidth(0).build().err(),
        Some(SetupError::FftSizeTooLarge)
    );
    assert_eq!(builder(2048).compressed_bandwidth(0).build().err(), Some(SetupError::ZeroBandwidth));
    assert_eq!(builder(0).bins(0).build().err(), Some(SetupError::NoCompressionBins));
    assert_eq!(builder(1024).build().err(), Some(SetupError::TooManyBins));
    assert_eq!(builder(100).bins(101).build().err(), Some(SetupError::TooManyBins));
    assert!(builder(100).bins(100).build().is_ok());
}

#[test]
fn build_keeps_sinks_and_timeout() {
    let setup = BandSetupBuilder::<Vec<u8>, Vec<u8>>::new(vec![9, 9], 2048)
        .time_log(vec![7])
        .timeout(5)
        .build()
        .unwrap();
    assert_eq!(setup.destination, vec![9, 9]);
    assert_eq!(setup.time_log, Some(vec![7]));
    assert_eq!(setup.timeout, 5);
}

#[test]
fn floor_div_floors() {
    assert_eq!(floor_div(7, 2), (3, 1));
    assert_eq!(floor_div(-7, 2), (-4, 1));
    assert_eq!(floor_div(-8, 2), (-4, 0));
    assert_eq!(floor_div(0, 5), (0, 0));
    assert_eq!(floor_div(-1, u32::MAX), (-1, u32::MAX - 1));
    assert_eq!(floor_div(i64::MAX, 1), (i64::MAX, 0));
    assert_eq!(floor_div(i64::MIN + 1, 1), (i64::MIN + 1, 0));
}

#[test]
fn saturate_clamps() {
    assert_eq!(saturate(0), 0);
    assert_eq!(saturate(32767), 32767);
    assert_eq!(saturate(32768), 32767);
    assert_eq!(saturate(-32768), -32768);
    assert_eq!(saturate(-32769), -32768);
    assert_eq!(saturate(i64::MAX), i16::MAX);
    assert_eq!(saturate(i64::MIN), i16::MIN);
}
