use virt_texture::import::{border_byte_len, pair_byte_len, TextureImport, SINGLE_ROW_BYTES};
use virt_texture::metadata::TextureMetadata;
use virt_texture::mip_generator::MipLevelGen;
use virt_texture::resample::{downsample_rows, FilterMode};
use virt_texture::storage::TextureStorage;

fn row_len(pages: usize) -> usize {
    (pages * 120 + 8) * 128 * 4
}

#[test]
fn downsample_rows_halves_a_uniform_row() {
    let first = vec![0xFF; row_len(2)];
    let second = vec![0xFF; row_len(2)];
    let next = downsample_rows(&first, &second, 2, FilterMode::Nearest);
    assert_eq!(next.len(), row_len(1));
    assert!(next.iter().all(|&b| b == 0xFF));
}

#[test]
fn downsample_rows_drops_the_inner_borders() {
    // Upper row: its bottom border is 0x00, the rest 0x10.
    // Lower row: its top border is 0x00, the rest 0x20.
    let texel_row = (2 * 120 + 8) * 4;
    let mut first = vec![0x10; row_len(2)];
    let mut second = vec![0x20; row_len(2)];
    let len = row_len(2);
    for b in &mut first[len - 4 * texel_row..] {
        *b = 0;
    }
    for b in &mut second[..4 * texel_row] {
        *b = 0;
    }
    let next = downsample_rows(&first, &second, 2, FilterMode::Nearest);
    let half = next.len() / 2;
    assert!(next[..half].iter().all(|&b| b == 0x10));
    assert!(next[half..].iter().all(|&b| b == 0x20));
}

#[test]
fn mip_generator_cascades_a_pair_to_the_next_level() {
    let storage = TextureStorage::from_parts(String::from("t"), TextureMetadata::from_mip(1, 4));
    let mut generator = MipLevelGen::from_mip(1, 0, 4, FilterMode::Nearest);
    let row = vec![0x7F; row_len(2)];
    let writes = generator.write_two_rows((&row, &row), 0, &storage);
    let written: Vec<(u8, usize, usize)> =
        writes.iter().map(|w| (w.mip, w.row, w.bytes.len())).collect();
    assert_eq!(
        written,
        vec![(0, 0, 2 * 128 * 128 * 4), (0, 1, 2 * 128 * 128 * 4), (1, 0, 128 * 128 * 4)]
    );
    assert!(writes[2].bytes.iter().all(|&b| b == 0x7F));
    assert_eq!(generator.held_rows(), 1);
}

#[test]
fn mip_generator_holds_the_first_row_of_each_pair() {
    let storage = TextureStorage::from_parts(String::from("t"), TextureMetadata::from_mip(2, 4));
    let mut generator = MipLevelGen::from_mip(2, 0, 4, FilterMode::Nearest);
    let row = vec![1; row_len(4)];
    let first = generator.write_two_rows((&row, &row), 0, &storage);
    assert_eq!(
        first.iter().map(|w| (w.mip, w.row)).collect::<Vec<_>>(),
        vec![(0, 0), (0, 1), (1, 0)]
    );
    assert_eq!(generator.held_rows(), 1);
    let second = generator.write_two_rows((&row, &row), 2, &storage);
    assert_eq!(
        second.iter().map(|w| (w.mip, w.row)).collect::<Vec<_>>(),
        vec![(0, 2), (0, 3), (1, 1), (2, 0)]
    );
    assert_eq!(generator.held_rows(), 1);
}

fn import_uniform(mip_levels: u8, value: u8) -> Vec<Vec<(usize, usize)>> {
    let metadata = TextureMetadata::from_mip(mip_levels, 4);
    let storage = TextureStorage::from_parts(String::from("t"), metadata.clone());
    let border = vec![value; border_byte_len(&metadata)];
    let mut import = TextureImport::new(&storage, FilterMode::Nearest, &border);
    let pair = vec![value; pair_byte_len(&metadata)];
    let mut per_mip: Vec<Vec<(usize, usize)>> = vec![Vec::new(); mip_levels as usize + 1];
    while !import.is_complete() {
        for write in import.import_pair(&pair, &storage) {
            assert!(write.bytes.iter().all(|&b| b == value));
            per_mip[write.mip as usize].push((write.row, write.bytes.len()));
        }
    }
    assert_eq!(import.rows_done(), 1 << mip_levels);
    per_mip
}

#[test]
fn import_writes_every_row_of_every_mip_once() {
    let per_mip = import_uniform(4, 0xFF);
    for (mip, rows) in per_mip.iter().enumerate() {
        let count = 16 >> mip;
        let expected: Vec<(usize, usize)> =
            (0..count).map(|row| (row, count * 128 * 128 * 4)).collect();
        assert_eq!(rows, &expected);
    }
}

#[test]
fn import_of_two_pages_writes_three_rows() {
    let per_mip = import_uniform(1, 0x33);
    assert_eq!(per_mip[0], vec![(0, 2 * 128 * 128 * 4), (1, 2 * 128 * 128 * 4)]);
    assert_eq!(per_mip[1], vec![(0, 128 * 128 * 4)]);
}

#[test]
fn import_sizes_follow_the_page_grid() {
    let metadata = TextureMetadata::from_mip(4, 4);
    assert_eq!(border_byte_len(&metadata), (16 * 120 + 8) * 8 * 4);
    assert_eq!(pair_byte_len(&metadata), (16 * 120 + 8) * 240 * 4);
}

#[test]
fn import_of_a_single_page_writes_one_row() {
    let metadata = TextureMetadata::from_mip(0, 4);
    let storage = TextureStorage::from_parts(String::from("t"), metadata.clone());
    let border = vec![0x44; border_byte_len(&metadata)];
    let mut import = TextureImport::new(&storage, FilterMode::Nearest, &border);
    assert!(!import.is_complete());
    let row = vec![0x55; SINGLE_ROW_BYTES];
    let writes = import.import_single_row(&row, &storage);
    assert!(import.is_complete());
    assert_eq!(writes.len(), 1);
    assert_eq!((writes[0].mip, writes[0].row), (0, 0));
    assert_eq!(writes[0].bytes.len(), 128 * 128 * 4);
    // The first 8 texel rows of the page are the top border.
    assert!(writes[0].bytes[..8 * 128 * 4].iter().all(|&b| b == 0x44));
    assert!(writes[0].bytes[8 * 128 * 4..].iter().all(|&b| b == 0x55));
}

#[test]
fn import_rows_overlap_by_one_border() {
    // Two pages: each texel row of the source holds its own index.
    let metadata = TextureMetadata::from_mip(1, 4);
    let storage = TextureStorage::from_parts(String::from("t"), metadata.clone());
    let texel_row = (2 * 120 + 8) * 4;
    let source: Vec<u8> = (0..248).flat_map(|r| vec![r as u8; texel_row]).collect();
    let border_len = border_byte_len(&metadata);
    let mut import = TextureImport::new(&storage, FilterMode::Nearest, &source[..border_len]);
    let writes = import.import_pair(&source[border_len..], &storage);
    // Page 0 of row 0 starts at texel row 0; page 0 of row 1 at texel row 120.
    assert_eq!(writes[0].bytes[0], 0);
    assert_eq!(writes[0].bytes[127 * 128 * 4], 127);
    assert_eq!(writes[1].bytes[0], 120);
    assert_eq!(writes[1].bytes[127 * 128 * 4], 247);
}

#[test]
fn import_with_lanczos_writes_whole_pages_at_every_mip() {
    let metadata = TextureMetadata::from_mip(2, 4);
    let storage = TextureStorage::from_parts(String::from("t"), metadata.clone());
    let border = vec![0x10; border_byte_len(&metadata)];
    let mut import = TextureImport::new(&storage, FilterMode::Lanczos3, &border);
    let pair = vec![0x80; pair_byte_len(&metadata)];
    let mut count = 0;
    while !import.is_complete() {
        for write in import.import_pair(&pair, &storage) {
            let pages = 4usize >> write.mip;
            assert_eq!(write.bytes.len(), pages * 128 * 128 * 4);
            count += 1;
        }
    }
    assert_eq!(count, 2 * 4 - 1);
}
