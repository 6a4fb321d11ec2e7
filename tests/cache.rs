use bytes::Bytes;
use slayerfs::cache::{CacheSlice, ChunkLayout, WriteAction, WriteConfig};
use slayerfs::page::{CacheError, Page};
use std::sync::Arc;

fn config() -> Arc<WriteConfig> {
    Arc::new(
        WriteConfig::new(ChunkLayout {
            chunk_size: 16 * 1024,
            block_size: 4 * 1024,
        })
        .page_size(1024),
    )
}

fn patterned(len: usize, seed: u8) -> Vec<u8> {
    let mut buf = vec![0u8; len];
    for (i, b) in buf.iter_mut().enumerate() {
        *b = seed.wrapping_add(i as u8);
    }
    buf
}

fn flatten(parts: Vec<Bytes>) -> Vec<u8> {
    parts.into_iter().flat_map(|b| b.to_vec()).collect()
}

fn collect_all(slice: &mut CacheSlice) -> Vec<u8> {
    let len = slice.len();
    let block_size = slice.block_size() as u64;
    let end = if len == 0 {
        0
    } else {
        len.div_ceil(block_size) as usize
    };
    let mut blocks = slice.collect_pages(0, end).unwrap();
    blocks.sort_by_key(|(idx, _)| *idx);
    let mut out = Vec::new();
    for (_, pages) in blocks {
        out.extend(flatten(pages));
    }
    out
}

#[test]
fn test_append_single_page() {
    let mut slice = CacheSlice::new(config());
    let data = patterned(512, 1);
    slice.append(&data).unwrap();
    slice.freeze();

    assert_eq!(slice.len(), data.len() as u64);
    assert_eq!(slice.stats().pages_used, 1);
    assert_eq!(collect_all(&mut slice), data);
}

#[test]
fn test_append_spans_pages() {
    let mut slice = CacheSlice::new(config());
    let data = patterned(1024 + 10, 3);
    slice.append(&data).unwrap();
    slice.freeze();

    assert_eq!(slice.len(), data.len() as u64);
    assert_eq!(slice.stats().pages_used, 2);
    assert_eq!(collect_all(&mut slice), data);
}

#[test]
fn test_append_spans_blocks() {
    let mut slice = CacheSlice::new(config());
    let data = patterned(4 * 1024 + 512, 7);
    slice.append(&data).unwrap();
    slice.freeze();

    let block_size = slice.block_size() as usize;
    let page_size = config().page_size as usize;
    let pages_per_block = block_size.div_ceil(page_size);
    assert_eq!(slice.stats().pages_used, pages_per_block + 1);
    assert_eq!(collect_all(&mut slice), data);
}

#[test]
fn test_append_multiple_calls() {
    let mut slice = CacheSlice::new(config());
    let first = patterned(600, 11);
    let second = patterned(900, 23);

    slice.append(&first).unwrap();
    slice.append(&second).unwrap();
    slice.freeze();

    let mut expected = first.clone();
    expected.extend_from_slice(&second);

    assert_eq!(slice.len(), expected.len() as u64);
    assert_eq!(collect_all(&mut slice), expected);
}

#[test]
fn test_write_at() {
    let mut slice = CacheSlice::new(config());
    let first = patterned(600, 11);
    let second = patterned(600, 23);

    slice.append(&first).unwrap();
    slice.write_at(0, &second).unwrap();
    slice.freeze();

    let expected = second.clone();

    assert_eq!(slice.len(), expected.len() as u64);
    assert_eq!(collect_all(&mut slice), expected);
}

#[test]
fn test_write_at_overwrite_middle() {
    let mut slice = CacheSlice::new(config());
    let data = patterned(1500, 5);
    let patch = patterned(300, 200);
    let offset = 700usize;

    slice.append(&data).unwrap();
    slice.write_at(offset as u64, &patch).unwrap();
    slice.freeze();

    let mut expected = data.clone();
    let start = offset;
    let end = start + patch.len();
    expected[start..end].copy_from_slice(&patch);

    assert_eq!(slice.len(), data.len() as u64);
    assert_eq!(collect_all(&mut slice), expected);
}

#[test]
fn test_write_at_crosses_block_boundary() {
    let mut slice = CacheSlice::new(config());
    let data = patterned(4 * 1024 + 512, 9);
    let patch = patterned(512, 77);
    let offset = 4 * 1024 - 256;

    slice.append(&data).unwrap();
    slice.write_at(offset as u64, &patch).unwrap();
    slice.freeze();

    let mut expected = data.clone();
    let start = offset;
    let end = start + patch.len();
    expected[start..end].copy_from_slice(&patch);

    assert_eq!(slice.len(), data.len() as u64);
    assert_eq!(collect_all(&mut slice), expected);
}

#[test]
fn test_can_write_at_disallows_append_or_extend() {
    let mut slice = CacheSlice::new(config());
    let data = patterned(1024, 17);

    slice.append(&data).unwrap();

    assert!(slice.can_write_at(0, 512));
    assert!(slice.can_write_at(512, 512));
    assert!(!slice.can_write_at(1024, 1));
    assert!(!slice.can_write_at(900, 200));
}

#[test]
fn test_append_then_write_at_overwrite_full() {
    let mut slice = CacheSlice::new(config());
    let total = 16 * 1024;
    let first = patterned(6000, 1);
    let second = patterned(total - first.len(), 2);

    slice.append(&first).unwrap();
    slice.append(&second).unwrap();

    let overwrite = patterned(total, 9);
    slice.write_at(0, &overwrite).unwrap();
    slice.freeze();

    assert_eq!(slice.len(), total as u64);
    assert_eq!(collect_all(&mut slice), overwrite);
}

#[test]
fn collect_after_append_returns_appended_bytes() {
    let mut slice = CacheSlice::new(config());
    let data = patterned(3000, 42);
    slice.append(&data).unwrap();
    slice.freeze();
    let blocks = slice.collect_pages(0, 1).unwrap();
    assert_eq!(blocks.len(), 1);
    assert_eq!(flatten(blocks[0].1.clone()), data);
}

#[test]
fn short_write_collects_only_written_prefix() {
    let mut slice = CacheSlice::new(config());
    let data = patterned(512, 4);
    slice.append(&data).unwrap();
    slice.freeze();
    let blocks = slice.collect_pages(0, 2).unwrap();
    assert_eq!(blocks.len(), 2);
    assert_eq!(blocks[0].1.len(), 1);
    assert_eq!(blocks[0].1[0].to_vec(), data);
    assert!(blocks[1].1.is_empty());
    let page = slice.page(0, 0).unwrap();
    let bytes = page.frozen_bytes().unwrap();
    assert_eq!(bytes.len(), 1024);
    assert_eq!(&bytes[..512], &data[..]);
    assert!(bytes[512..].iter().all(|b| *b == 0));
}

#[test]
fn scenario_append_4608_collect_two_blocks() {
    let mut slice = CacheSlice::new(config());
    let data = patterned(4608, 1);
    slice.append(&data).unwrap();
    slice.freeze();
    let blocks = slice.collect_pages(0, 2).unwrap();
    assert_eq!(blocks.len(), 2);
    assert_eq!(blocks[0].0, 0);
    assert_eq!(blocks[0].1.len(), 4);
    for (i, page) in blocks[0].1.iter().enumerate() {
        assert_eq!(page.to_vec(), data[i * 1024..(i + 1) * 1024].to_vec());
    }
    assert_eq!(blocks[1].0, 1);
    assert_eq!(blocks[1].1.len(), 1);
    assert_eq!(blocks[1].1[0].len(), 512);
    assert_eq!(blocks[1].1[0].to_vec(), data[4096..].to_vec());
}

#[test]
fn can_write_at_length_appends_and_past_it_refuses() {
    let mut slice = CacheSlice::new(config());
    slice.append(&patterned(700, 3)).unwrap();
    assert_eq!(slice.can_write(700, 10), Some(WriteAction::Append));
    assert_eq!(slice.can_write(701, 1), None);
    assert_eq!(slice.can_write(100, 600), Some(WriteAction::Overlap));
    assert_eq!(slice.can_write(100, 601), None);
}

#[test]
fn write_dispatches_on_action() {
    let mut slice = CacheSlice::new(config());
    slice.write(0, &patterned(100, 1), WriteAction::Append).unwrap();
    slice.write(10, &[9u8; 5], WriteAction::Overlap).unwrap();
    assert_eq!(slice.len(), 100);
    slice.freeze();
    let mut expected = patterned(100, 1);
    expected[10..15].copy_from_slice(&[9u8; 5]);
    assert_eq!(collect_all(&mut slice), expected);
}

#[test]
fn release_block_frees_its_pages() {
    let mut slice = CacheSlice::new(config());
    slice.append(&patterned(4096 + 2048, 8)).unwrap();
    slice.freeze();
    let _ = slice.collect_pages(0, 2).unwrap();
    assert_eq!(slice.alloc_bytes(), 6 * 1024);
    let freed = slice.release_block(vec![0]);
    assert_eq!(freed, 4 * 1024);
    assert_eq!(slice.alloc_bytes(), 2 * 1024);
    for p in 0..4 {
        assert!(slice.page(0, p).is_none());
    }
    assert!(slice.page(1, 0).is_some());
    assert_eq!(slice.stats().pages_used, 2);
}

#[test]
fn release_all_frees_everything() {
    let mut slice = CacheSlice::new(config());
    slice.append(&patterned(5000, 8)).unwrap();
    assert_eq!(slice.release_all(), 5 * 1024);
    assert_eq!(slice.alloc_bytes(), 0);
    assert_eq!(slice.stats().pages_used, 0);
    assert_eq!(slice.stats().pages_total, 16);
}

#[test]
fn append_past_chunk_overflows() {
    let mut slice = CacheSlice::new(config());
    slice.append(&patterned(16 * 1024 - 10, 1)).unwrap();
    assert_eq!(slice.append(&patterned(11, 1)), Err(CacheError::ChunkOverflow));
    assert_eq!(slice.len(), 16 * 1024 - 10);
    assert!(slice.append(&patterned(10, 1)).is_ok());
}

#[test]
fn writing_frozen_region_fails_without_change() {
    let mut slice = CacheSlice::new(config());
    let data = patterned(2000, 6);
    slice.append(&data).unwrap();
    slice.freeze_blocks(0, 1);
    assert_eq!(slice.write_at(100, &[1u8; 4]), Err(CacheError::FrozenPageWrite));
    assert_eq!(slice.append(&[1u8; 4]), Err(CacheError::FrozenPageWrite));
    let blocks = slice.collect_pages(0, 1).unwrap();
    assert_eq!(flatten(blocks[0].1.clone()), data);
}

#[test]
fn collecting_mutable_page_fails() {
    let mut slice = CacheSlice::new(config());
    slice.append(&patterned(5000, 6)).unwrap();
    slice.freeze_blocks(0, 1);
    assert!(slice.collect_pages(0, 1).is_ok());
    assert_eq!(slice.collect_pages(0, 2).unwrap_err(), CacheError::ReadBeforeFreeze);
}

#[test]
fn sparse_hole_collects_as_zeros() {
    let mut slice = CacheSlice::new(config());
    slice.append(&patterned(3072, 2)).unwrap();
    slice.freeze();
    slice.release_block(vec![0]);
    let blocks = slice.collect_pages(0, 1).unwrap();
    assert_eq!(blocks[0].1.len(), 3);
    assert_eq!(flatten(blocks[0].1.clone()), vec![0u8; 3072]);
}

#[test]
fn collect_from_later_block_skips_earlier_bytes() {
    let mut slice = CacheSlice::new(config());
    let data = patterned(9000, 3);
    slice.append(&data).unwrap();
    slice.freeze();
    let blocks = slice.collect_pages(1, 4).unwrap();
    assert_eq!(blocks.len(), 3);
    assert_eq!(blocks[0].0, 1);
    assert_eq!(flatten(blocks[0].1.clone()), data[4096..8192].to_vec());
    assert_eq!(flatten(blocks[1].1.clone()), data[8192..].to_vec());
    assert!(blocks[2].1.is_empty());
    assert!(slice.collect_pages(3, 4).unwrap().is_empty());
}

#[test]
fn page_write_after_freeze_fails_and_read_before_freeze_fails() {
    let mut page = Page::new(8);
    assert_eq!(page.frozen_bytes().unwrap_err(), CacheError::ReadBeforeFreeze);
    page.write_slice(2, &[1, 2, 3], 0, 3).unwrap();
    page.freeze();
    assert!(page.is_frozen());
    assert_eq!(page.write_slice(0, &[7], 0, 1), Err(CacheError::FrozenPageWrite));
    assert_eq!(page.frozen_bytes().unwrap().to_vec(), vec![0, 0, 1, 2, 3, 0, 0, 0]);
}

#[test]
fn stats_report_counters() {
    let mut slice = CacheSlice::new(config());
    slice.append(&patterned(2500, 1)).unwrap();
    let stats = slice.stats();
    assert_eq!(stats.len, 2500);
    assert_eq!(stats.alloc_bytes, 3 * 1024);
    assert_eq!(stats.pages_total, 16);
    assert_eq!(stats.pages_used, 3);
}

#[test]
fn append_allocates_only_touched_pages() {
    let mut slice = CacheSlice::new(config());
    slice.append(&patterned(4608, 7)).unwrap();
    assert_eq!(slice.stats().pages_used, 5);
    assert_eq!(slice.alloc_bytes(), 5120);
    assert!(slice.page(1, 0).is_some());
    assert!(slice.page(1, 1).is_none());
    slice.write_at(4096 + 1024, &[1u8; 10]).unwrap();
    assert_eq!(slice.stats().pages_used, 6);
    assert_eq!(slice.alloc_bytes(), 6144);
    assert_eq!(slice.len(), 4608);
}

#[test]
fn empty_writes_change_nothing() {
    let mut slice = CacheSlice::new(config());
    slice.append(&[]).unwrap();
    slice.write_at(3000, &[]).unwrap();
    assert_eq!(slice.len(), 0);
    assert_eq!(slice.stats().pages_used, 0);
    assert_eq!(slice.alloc_bytes(), 0);
}
