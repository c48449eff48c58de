use r_torrent::layout::{FileLayout, Segment};

fn seg(file: usize, offset: u64, length: u64) -> Segment {
    Segment { file, offset, length }
}

#[test]
fn span_within_one_file() {
    let layout = FileLayout::new(vec![100, 50, 200]).unwrap();
    assert_eq!(layout.total(), 350);
    assert_eq!(layout.len(), 3);
    assert_eq!(layout.segments(0, 100), Some(vec![seg(0, 0, 100)]));
    assert_eq!(layout.segments(10, 20), Some(vec![seg(0, 10, 20)]));
    assert_eq!(layout.segments(100, 50), Some(vec![seg(1, 0, 50)]));
    assert_eq!(layout.segments(160, 10), Some(vec![seg(2, 10, 10)]));
    assert_eq!(layout.segments(349, 1), Some(vec![seg(2, 199, 1)]));
}

#[test]
fn span_across_files_uses_each_files_own_offset() {
    let layout = FileLayout::new(vec![100, 50, 200]).unwrap();
    assert_eq!(layout.segments(90, 20), Some(vec![seg(0, 90, 10), seg(1, 0, 10)]));
    assert_eq!(
        layout.segments(90, 100),
        Some(vec![seg(0, 90, 10), seg(1, 0, 50), seg(2, 0, 40)])
    );
    assert_eq!(
        layout.segments(0, 350),
        Some(vec![seg(0, 0, 100), seg(1, 0, 50), seg(2, 0, 200)])
    );
}

#[test]
fn empty_files_hold_nothing() {
    let layout = FileLayout::new(vec![0, 10, 0, 0, 10, 0]).unwrap();
    assert_eq!(layout.segments(5, 10), Some(vec![seg(1, 5, 5), seg(4, 0, 5)]));
    assert_eq!(layout.segments(10, 1), Some(vec![seg(4, 0, 1)]));
}

#[test]
fn span_outside_the_payload() {
    let layout = FileLayout::new(vec![100, 50]).unwrap();
    assert_eq!(layout.segments(0, 151), None);
    assert_eq!(layout.segments(150, 1), None);
    assert_eq!(layout.segments(151, 0), None);
    assert_eq!(layout.segments(u64::MAX, 2), None);
    assert_eq!(layout.segments(2, u64::MAX), None);
    assert_eq!(layout.segments(150, 0), Some(vec![]));
    assert_eq!(layout.segments(20, 0), Some(vec![]));
}

#[test]
fn sizes_must_fit() {
    assert!(FileLayout::new(vec![u64::MAX, 1]).is_none());
    assert!(FileLayout::new(vec![u64::MAX - 1, 1]).is_some());
    let none = FileLayout::new(vec![]).unwrap();
    assert_eq!(none.total(), 0);
    assert_eq!(none.segments(0, 0), Some(vec![]));
    assert_eq!(none.segments(0, 1), None);
}

#[test]
fn parts_cover_the_span() {
    let sizes: Vec<u64> = vec![3, 0, 7, 1, 1, 20, 5];
    let layout = FileLayout::new(sizes.clone()).unwrap();
    let starts: Vec<u64> = sizes
        .iter()
        .scan(0u64, |at, s| {
            let start = *at;
            *at += *s;
            Some(start)
        })
        .collect();
    for offset in 0..=37u64 {
        for len in 0..=(37 - offset) {
            let parts = layout.segments(offset, len).unwrap();
            let mut at = offset;
            for part in &parts {
                assert!(part.length > 0);
                assert!(part.offset + part.length <= sizes[part.file]);
                assert_eq!(starts[part.file] + part.offset, at);
                at += part.length;
            }
            assert_eq!(at, offset + len);
        }
    }
}
