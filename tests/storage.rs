use virt_texture::metadata::TextureMetadata;
use virt_texture::storage::{metadata_file_name, row_file_name, row_pages, TextureStorage};

fn patterned(len: usize) -> Vec<u8> {
    (0..len).map(|i| (i % 251) as u8).collect()
}

#[test]
fn row_pages_of_one_page_keeps_the_row() {
    let data = patterned(128 * 128);
    assert_eq!(row_pages(&data, 1, 1), data);
}

#[test]
fn row_pages_slices_overlapping_pages() {
    // Two pages of one byte per texel: 248 texels per texel row.
    let width = 2 * 120 + 8;
    let data = patterned(width * 128);
    let paged = row_pages(&data, 2, 1);
    assert_eq!(paged.len(), 2 * 128 * 128);
    for page in 0..2 {
        for sub_row in 0..128 {
            let start = sub_row * width + page * 120;
            let out = page * 128 * 128 + sub_row * 128;
            assert_eq!(&paged[out..out + 128], &data[start..start + 128]);
        }
    }
    // The second page starts 120 texels in, inside the first page's border.
    assert_eq!(paged[128 * 128], data[120]);
}

#[test]
fn row_pages_keeps_whole_texels() {
    let width = 2 * 120 + 8;
    let data = patterned(width * 128 * 4);
    let paged = row_pages(&data, 2, 4);
    assert_eq!(paged.len(), 2 * 128 * 128 * 4);
    let page = 1;
    let sub_row = 3;
    let start = (sub_row * width + page * 120) * 4;
    let out = page * 128 * 128 * 4 + sub_row * 128 * 4;
    assert_eq!(&paged[out..out + 512], &data[start..start + 512]);
}

#[test]
fn page_row_file_has_page_count_pages() {
    let storage = TextureStorage::from_parts(String::from("texture"), TextureMetadata::from_mip(2, 4));
    for mip in 0u8..=2 {
        let pages = storage.pages_at(mip);
        assert_eq!(pages, 4 >> mip);
        let data = vec![0xAB; (pages * 120 + 8) * 128 * 4];
        let bytes = storage.page_row(mip, &data);
        assert_eq!(bytes.len(), pages * 128 * 128 * 4);
    }
    assert_eq!(storage.directory(), "texture");
    assert_eq!(storage.metadata().side_len(), 4);
}

#[test]
fn row_files_are_named_by_mip_and_row() {
    assert_eq!(row_file_name(0, 0), "0-0");
    assert_eq!(row_file_name(3, 17), "3-17");
    assert_eq!(row_file_name(12, 4095), "12-4095");
}

#[test]
fn metadata_file_defaults_to_meta_json() {
    assert_eq!(metadata_file_name(None), "meta.json");
    assert_eq!(metadata_file_name(Some("shape")), "shape.json");
}
