use prefix_codec::savebits::SaveBits;

#[test]
fn test_to_bits_u8() {
    assert_eq!(
        vec![true, false, true, true, false, false, true, false],
        178u8.save_bits()
    );
    assert_eq!(
        vec![true, false, false, true, false, false, true, false],
        146u8.save_bits()
    );
    assert_eq!(vec![true; 8], 255u8.save_bits());
    assert_eq!(vec![false; 8], 0u8.save_bits());
}

#[test]
fn test_to_bits_usize() {
    assert_eq!(
        vec![false, false, false, true, true, false, true],
        13usize.save_bits()
    );
    assert_eq!(vec![true], 1usize.save_bits());
    assert_eq!(vec![false, true, false], 2usize.save_bits());
    assert_eq!(vec![false, true, true], 3usize.save_bits());
    assert_eq!(
        vec![false, false, false, true, false, false, false],
        8usize.save_bits()
    );
}

#[test]
fn test_from_bits_u8() {
    assert_eq!(u8::from_bits(&vec![false; 8], 0), Some((0u8, 8)));
    assert_eq!(u8::from_bits(&vec![true; 8], 0), Some((255u8, 8)));
    assert_eq!(
        u8::from_bits(
            &vec![true, false, false, true, true, false, true, false],
            0
        ),
        Some((154u8, 8))
    );
    // too few bits
    assert_eq!(u8::from_bits(&vec![true; 7], 0), None);

    for k in 0..=255u8 {
        assert_eq!(u8::from_bits(&k.save_bits(), 0), Some((k, 8)));
    }
}

#[test]
fn test_from_bits_usize() {
    assert_eq!(usize::from_bits(&vec![true], 0), Some((1usize, 1)));
    assert_eq!(
        usize::from_bits(&vec![false, true, false], 0),
        Some((2usize, 3))
    );
    assert_eq!(
        usize::from_bits(&vec![false, false, false, true, true, false, true], 0),
        Some((13usize, 7))
    );
    // a run of zeros with no terminator is a truncated token
    assert_eq!(usize::from_bits(&vec![false; 12], 0), None);

    for k in 1..1000usize {
        let bits = k.save_bits();
        assert_eq!(usize::from_bits(&bits, 0), Some((k, bits.len())));
    }

    for k in 100_000_000..100_000_500usize {
        let bits = k.save_bits();
        assert_eq!(usize::from_bits(&bits, 0), Some((k, bits.len())));
    }
}

#[test]
fn test_uint_round_trip_large_range() {
    // samples across 1..=1_000_000, plus the ends themselves
    let mut k: usize = 1;
    while k <= 1_000_000 {
        let bits = k.save_bits();
        assert_eq!(usize::from_bits(&bits, 0), Some((k, bits.len())));
        k += 997;
    }
    let bits = 1_000_000usize.save_bits();
    // 1_000_000 needs 20 binary digits, so its encoding holds 39 bits
    assert_eq!(bits.len(), 39);
    assert_eq!(usize::from_bits(&bits, 0), Some((1_000_000usize, 39)));
}

#[test]
fn test_uint_round_trip_extremes() {
    for k in [
        4usize,
        7,
        8,
        1 << 16,
        (1 << 16) - 1,
        usize::MAX / 2,
        usize::MAX,
    ] {
        let bits = k.save_bits();
        assert_eq!(usize::from_bits(&bits, 0), Some((k, bits.len())));
    }
}

#[test]
fn test_uint_encoding_lengths() {
    // 2 * ceil(log2(n + 1)) - 1 bits for each n
    assert_eq!(1usize.save_bits().len(), 1);
    assert_eq!(2usize.save_bits().len(), 3);
    assert_eq!(3usize.save_bits().len(), 3);
    assert_eq!(4usize.save_bits().len(), 5);
    assert_eq!(7usize.save_bits().len(), 5);
    assert_eq!(8usize.save_bits().len(), 7);
    assert_eq!(255usize.save_bits().len(), 15);
    assert_eq!(256usize.save_bits().len(), 17);
}
