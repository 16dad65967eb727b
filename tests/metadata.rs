use virt_texture::metadata::TextureMetadata;

#[test]
fn from_mip_gives_power_of_two_sides() {
    for mip in 0u8..=12 {
        let meta = TextureMetadata::from_mip(mip, 4);
        assert_eq!(meta.side_len() as u32, 1u32 << mip);
        assert_eq!(meta.mip_levels(), mip);
        assert_eq!(meta.bytes_per_texel(), 4);
        assert_eq!(meta.dimensions(), (meta.side_len(), meta.side_len()));
    }
}

#[test]
fn from_dimensions_rounds_up_to_power_of_two() {
    let meta = TextureMetadata::from_dimensions((5, 3), 4);
    assert_eq!(meta.side_len(), 8);
    assert_eq!(meta.mip_levels(), 3);

    let meta = TextureMetadata::from_dimensions((16, 16), 4);
    assert_eq!(meta.side_len(), 16);
    assert_eq!(meta.mip_levels(), 4);

    let meta = TextureMetadata::from_dimensions((1, 17), 4);
    assert_eq!(meta.side_len(), 32);
    assert_eq!(meta.mip_levels(), 5);

    let meta = TextureMetadata::from_dimensions((0, 0), 4);
    assert_eq!(meta.side_len(), 1);
    assert_eq!(meta.mip_levels(), 0);

    let meta = TextureMetadata::from_dimensions((4096, 2049), 4);
    assert_eq!(meta.side_len(), 4096);
    assert_eq!(meta.mip_levels(), 12);
}

#[test]
fn from_parts_round_trips_metadata_fields() {
    for mip in 0u8..=12 {
        let meta = TextureMetadata::from_mip(mip, 4);
        let rebuilt =
            TextureMetadata::from_parts(meta.dimensions(), meta.bytes_per_texel(), meta.mip_levels())
                .unwrap();
        assert_eq!(rebuilt.side_len(), meta.side_len());
        assert_eq!(rebuilt.bytes_per_texel(), meta.bytes_per_texel());
        assert_eq!(rebuilt.mip_levels(), meta.mip_levels());
    }
}

#[test]
fn from_parts_rejects_invalid_fields() {
    assert!(TextureMetadata::from_parts((16, 16), 4, 4).is_some());
    assert!(TextureMetadata::from_parts((16, 8), 4, 4).is_none());
    assert!(TextureMetadata::from_parts((16, 16), 3, 4).is_none());
    assert!(TextureMetadata::from_parts((16, 16), 4, 3).is_none());
    assert!(TextureMetadata::from_parts((12, 12), 4, 3).is_none());
    assert!(TextureMetadata::from_parts((8192, 8192), 4, 13).is_none());
}
