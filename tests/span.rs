use slayerfs::span::Span;

#[test]
fn split_into_blocks_then_pages_covers_range_once() {
    let span = Span::new(0, 3000, 6000);
    let blocks = span.split_into(16384, 4096, true).unwrap();
    assert_eq!(blocks, vec![Span::new(0, 3000, 1096), Span::new(1, 0, 4096), Span::new(2, 0, 808)]);
    let mut positions = Vec::new();
    for b in &blocks {
        for p in b.split_into(4096, 1024, true).unwrap() {
            for i in 0..p.len {
                positions.push(b.index * 4096 + p.index * 1024 + p.offset + i);
            }
        }
    }
    let expected: Vec<u64> = (3000..9000).collect();
    assert_eq!(positions, expected);
}

#[test]
fn split_empty_and_boundary_spans() {
    assert!(Span::new(0, 100, 0).split_into(4096, 1024, true).unwrap().is_empty());
    let pieces = Span::new(0, 1024, 1024).split_into(4096, 1024, true).unwrap();
    assert_eq!(pieces, vec![Span::new(1, 0, 1024)]);
}

#[test]
fn split_clips_or_refuses_overlong_spans() {
    let span = Span::new(0, 4000, 200);
    assert_eq!(span.split_into(4096, 1024, false), None);
    assert_eq!(span.split_into(4096, 1024, true).unwrap(), vec![Span::new(3, 928, 96)]);
}
