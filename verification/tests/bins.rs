use schrom::bins::Binning;

#[test]
fn bins_cover_the_chromosome() {
    let binning = Binning::new(1000, 200).unwrap();
    assert_eq!(binning.num_bins(), 5);
    assert_eq!(binning.table_rows(), 6);
    let longer = Binning::new(1001, 200).unwrap();
    assert_eq!(longer.num_bins(), 6);
    assert_eq!(longer.table_rows(), 6);
    let short = Binning::new(1, 200).unwrap();
    assert_eq!(short.num_bins(), 1);
    assert_eq!(short.table_rows(), 1);
    let none = Binning::new(0, 200).unwrap();
    assert_eq!(none.num_bins(), 0);
    assert_eq!(none.table_rows(), 1);
}

#[test]
fn window_starts_one_before_the_bin() {
    let binning = Binning::new(1001, 200).unwrap();
    assert_eq!(binning.window_of(0), (0, 201));
    assert_eq!(binning.window_of(1), (199, 400));
    assert_eq!(binning.window_of(2), (399, 600));
    assert_eq!(binning.window_of(5), (999, 1200));
    let single = Binning::new(3, 1).unwrap();
    assert_eq!(single.window_of(0), (0, 2));
    assert_eq!(single.window_of(1), (0, 2));
    assert_eq!(single.window_of(2), (1, 3));
}

#[test]
fn binning_needs_a_window_and_32_bit_positions() {
    assert!(Binning::new(1000, 0).is_none());
    assert!(Binning::new(0, 0).is_none());
    assert!(Binning::new(0xffff_ffff, 200).is_none());
    assert!(Binning::new(0xffff_ffff - 200, 200).is_none());
    assert!(Binning::new(0xffff_ffff - 201, 200).is_some());
    assert!(Binning::new(10, 0xffff_ffff).is_none());
    let human = Binning::new(248_956_422, 200).unwrap();
    assert_eq!(human.num_bins(), 1_244_783);
    assert_eq!(human.table_rows(), 1_244_783);
    assert_eq!(human.window_of(1_244_782), (248_956_399, 248_956_600));
}
