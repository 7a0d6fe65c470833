use lightbox::track::{decode_track_id, track_id_fits, TrackIdError};

#[test]
fn decodes_base62_track_ids() {
    assert!(track_id_fits("5sWHDYs0csV6RS48xBl0tH"));
    assert_eq!(
        decode_track_id("5sWHDYs0csV6RS48xBl0tH"),
        Ok(238762092608182713602505436543891614649)
    );
    assert_eq!(
        decode_track_id("4GNcXTGWmnZ3ySrqvol3o4"),
        Ok(204841891221366092811751085145916697048)
    );
    assert_eq!(decode_track_id("10"), Ok(62));
    assert_eq!(decode_track_id("Z"), Ok(61));
    assert_eq!(decode_track_id(""), Ok(0));
}

#[test]
fn rejects_non_digits() {
    assert_eq!(decode_track_id("spotify:track:1"), Err(TrackIdError));
    assert_eq!(decode_track_id("abc-def"), Err(TrackIdError));
}

#[test]
fn overflowing_ids_do_not_fit() {
    assert!(!track_id_fits("ZZZZZZZZZZZZZZZZZZZZZZ"));
    assert!(track_id_fits("ZZZZZZZZZZZZZZZZZZZZZ"));
    assert!(!track_id_fits("ZZZZZZZZZZZZZZZZZZZZZZ-"));
    assert!(track_id_fits("-ZZZZZZZZZZZZZZZZZZZZZZ"));
}
