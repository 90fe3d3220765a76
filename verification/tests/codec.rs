use electrostatic_2d::pack_data;
use electrostatic_2d::unpack_data;

#[test]
fn unpack_splits_index_and_level() {
    let (index, beta) = unpack_data(0x0003_8000);
    assert_eq!(index, 3);
    assert_eq!(beta, 0x8000);
}

#[test]
fn unpack_zero_word() {
    assert_eq!(unpack_data(0), (0, 0));
}

#[test]
fn unpack_full_word() {
    assert_eq!(unpack_data(0xFFFF_FFFF), (0xFFFF, 0xFFFF));
}

#[test]
fn pack_places_index_high_and_level_low() {
    assert_eq!(pack_data(1, 2), 0x0001_0002);
    assert_eq!(pack_data(0xFFFF, 0), 0xFFFF_0000);
    assert_eq!(pack_data(0, 0xFFFF), 0x0000_FFFF);
}

#[test]
fn round_trip_recovers_every_level_exactly() {
    // every one of the 65536 representable blend levels survives a round trip
    for beta in 0..=0xFFFFu16 {
        let word = pack_data(41, beta);
        assert_eq!(unpack_data(word), (41, beta));
    }
    // and a spread of table indices
    for index in [0u16, 1, 2, 255, 256, 0x7FFF, 0xFFFF] {
        let word = pack_data(index, 12345);
        assert_eq!(unpack_data(word), (index as usize, 12345));
    }
}
