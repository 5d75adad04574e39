//! Compression levels.

use flacx::level::Level;

#[test]
fn converts_from_numeric_levels() {
    for (raw, expected) in [
        (0, Level::Level0),
        (1, Level::Level1),
        (2, Level::Level2),
        (3, Level::Level3),
        (4, Level::Level4),
        (5, Level::Level5),
        (6, Level::Level6),
        (7, Level::Level7),
        (8, Level::Level8),
    ] {
        assert_eq!(Level::try_from(raw), Ok(expected));
        assert_eq!(u8::from(expected), raw);
    }
}

#[test]
fn rejects_out_of_range_levels() {
    assert_eq!(Level::try_from(9), Err(9));
}
