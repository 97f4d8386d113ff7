use img2bin::layout::{arrange_files_in_memory, file_precedes, sort_order, Placement, VRAM_LIMIT};
use img2bin::params::{DirParameters, FileParameters};
use img2bin::split::{any_split, check_for_vram_page_crossing, exceeds_capacity, split_sections, VRAM_PAGE_BOUNDARY};

fn item(alignment: usize, size: usize, path: &str) -> FileParameters {
    let mut dir = DirParameters::new();
    dir.alignment = alignment;
    dir.bpp = 8;
    dir.path = path.to_string();
    let mut f = FileParameters::new(&dir);
    f.size = size;
    f
}

fn with_bytes(mut f: FileParameters) -> FileParameters {
    f.binary = (0..f.size).map(|i| i as u8).collect();
    f
}

#[test]
fn placement_two_aligned_assets_follow_without_waste() {
    let files = vec![item(32, 64, "sprite.png"), item(2048, 4096, "tiles.png")];
    let arr = arrange_files_in_memory(&files);
    assert_eq!(
        arr.placements,
        vec![Placement { file: 1, address: 0, waste: 0 }, Placement { file: 0, address: 4096, waste: 0 }]
    );
    assert_eq!(arr.end_address, 4160);
}

#[test]
fn placement_best_fit_fills_the_gap() {
    let files = vec![item(256, 256, "a"), item(256, 10, "b"), item(16, 32, "c"), item(2, 6, "d")];
    let arr = arrange_files_in_memory(&files);
    assert_eq!(arr.order, vec![0, 1, 2, 3]);
    assert_eq!(
        arr.placements,
        vec![
            Placement { file: 0, address: 0, waste: 0 },
            Placement { file: 1, address: 256, waste: 0 },
            Placement { file: 3, address: 266, waste: 0 },
            Placement { file: 2, address: 272, waste: 0 },
        ]
    );
    assert_eq!(arr.end_address, 304);
}

#[test]
fn placement_keeps_head_when_no_candidate_is_better() {
    let files = vec![item(1, 3, "a"), item(4, 8, "b"), item(4, 4, "c")];
    let arr = arrange_files_in_memory(&files);
    // order by alignment then size: b, c, a
    assert_eq!(arr.order, vec![1, 2, 0]);
    assert_eq!(arr.placements[0], Placement { file: 1, address: 0, waste: 0 });
    assert_eq!(arr.placements[1], Placement { file: 2, address: 8, waste: 0 });
    assert_eq!(arr.placements[2], Placement { file: 0, address: 12, waste: 0 });
    assert_eq!(arr.end_address, 15);
}

#[test]
fn placement_last_asset_takes_its_padding() {
    let files = vec![item(1, 3, "a"), item(16, 16, "b")];
    let arr = arrange_files_in_memory(&files);
    assert_eq!(arr.placements[0], Placement { file: 1, address: 0, waste: 0 });
    assert_eq!(arr.placements[1], Placement { file: 0, address: 16, waste: 0 });
    let files = vec![item(16, 16, "b"), item(16, 3, "a"), item(16, 5, "c")];
    let arr = arrange_files_in_memory(&files);
    // b at 0, c at 16, a padded to 32
    assert_eq!(arr.placements[2], Placement { file: 1, address: 32, waste: 11 });
    assert_eq!(arr.end_address, 35);
}

#[test]
fn placement_ranges_do_not_overlap() {
    let files = vec![
        item(1, 7, "a"),
        item(8, 20, "b"),
        item(4, 5, "c"),
        item(32, 33, "d"),
        item(2, 1, "e"),
        item(8, 3, "f"),
    ];
    let arr = arrange_files_in_memory(&files);
    assert_eq!(arr.placements.len(), files.len());
    let mut total = 0;
    for (k, p) in arr.placements.iter().enumerate() {
        let f = &files[p.file];
        assert_eq!(p.address % f.alignment, 0);
        total += p.waste + f.size;
        for q in &arr.placements[k + 1..] {
            assert!(p.address + f.size <= q.address);
            assert_ne!(p.file, q.file);
        }
    }
    assert_eq!(arr.end_address, total);
}

#[test]
fn sort_order_vapor_alignment_size_path() {
    let mut vapor = item(1, 1, "z");
    vapor.vapor = true;
    let files = vec![item(4, 10, "b"), item(4, 10, "a"), item(4, 20, "c"), item(8, 1, "d"), vapor];
    assert_eq!(sort_order(&files), vec![4, 3, 2, 1, 0]);
    assert!(file_precedes(&files[1], &files[0]));
    assert!(!file_precedes(&files[0], &files[1]));
    assert!(!file_precedes(&files[0], &files[0]));
}

#[test]
fn capacity_exceeded_report() {
    assert_eq!(VRAM_LIMIT, 0x1F9C0);
    assert!(exceeds_capacity(0x1FA00));
    assert!(!exceeds_capacity(0x1F9C0));
    let files = vec![item(1, 0x10000, "a"), item(1, 0xFA00, "b")];
    let arr = arrange_files_in_memory(&files);
    assert_eq!(arr.end_address, 0x1FA00);
    assert!(exceeds_capacity(arr.end_address));
}

#[test]
fn split_at_page_boundary() {
    assert_eq!(VRAM_PAGE_BOUNDARY, 0x10000);
    let f = with_bytes(item(1, 0x20, "t.png"));
    let (lo, hi) = check_for_vram_page_crossing(0xFFF0, &f).unwrap();
    assert_eq!((lo.first_address, lo.last_address), (0xFFF0, 0xFFFF));
    assert_eq!((hi.first_address, hi.last_address), (0x10000, 0x1000F));
    assert_eq!(lo.data.len() - 2, 0x10);
    assert_eq!(hi.data.len() - 2, 0x10);
    assert_eq!(&lo.data[0..3], &[0, 0, 0]);
    assert_eq!(lo.data[17], 15);
    assert_eq!(&hi.data[0..3], &[0, 0, 16]);
    assert_eq!(hi.data[17], 31);
}

#[test]
fn split_not_needed() {
    let f = with_bytes(item(1, 0x10, "t.png"));
    assert!(check_for_vram_page_crossing(0xFFF0, &f).is_none());
    assert!(check_for_vram_page_crossing(0x10000, &f).is_none());
    let g = with_bytes(item(1, 0x11, "t.png"));
    assert!(check_for_vram_page_crossing(0xFFF0, &g).is_some());
}

#[test]
fn split_skips_assets_without_bytes() {
    let mut v = item(1, 0x20, "v");
    v.vapor = true;
    assert!(check_for_vram_page_crossing(0xFFF0, &v).is_none());
    let mut n = item(1, 0x20, "n");
    n.no_output = true;
    assert!(check_for_vram_page_crossing(0xFFF0, &n).is_none());
}

#[test]
fn split_sections_of_arrangement() {
    let files = vec![with_bytes(item(1, 0xFFF0, "a")), with_bytes(item(1, 0x20, "b"))];
    let arr = arrange_files_in_memory(&files);
    let splits = split_sections(&files, &arr);
    assert_eq!(splits.len(), 2);
    assert!(splits[0].is_none());
    let (lo, hi) = splits[1].as_ref().unwrap();
    assert_eq!(lo.first_address, 0xFFF0);
    assert_eq!(hi.last_address, 0x1000F);
    assert!(any_split(&splits));
    assert!(!any_split(&vec![None, None]));
}
