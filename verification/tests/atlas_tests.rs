use scrunch::buffer::{build_descriptor, compose, blit, AssembleError, PixelBuf};
use scrunch::codec::{decode, encode};
use scrunch::collect::{collect, collect_from};
use scrunch::manifest::Atlas;
use scrunch::pack::{pack, placements_disjoint, try_pack_at, PackError};
use scrunch::rect::{Placement, Rect};

fn rect(id: usize, w: usize, h: usize) -> Rect {
    Rect { id, w, h, rotatable: false }
}

#[test]
fn pack_three_rects() {
    let rects = vec![rect(0, 64, 64), rect(1, 32, 32), rect(2, 32, 64)];
    let (bw, bh, ps) = pack(&rects, 256).unwrap();
    assert_eq!(bw, 128);
    assert_eq!(bh, 128);
    assert_eq!(ps.len(), 3);
    for (k, p) in ps.iter().enumerate() {
        assert_eq!(p.id, rects[k].id);
        assert_eq!(p.w, rects[k].w);
        assert_eq!(p.h, rects[k].h);
        assert!(p.x + p.w <= bw && p.y + p.h <= bh);
    }
    assert!(placements_disjoint(&ps));
}

#[test]
fn pack_three_rects_exact_layout() {
    let rects = vec![rect(0, 64, 64), rect(1, 32, 32), rect(2, 32, 64)];
    let (_, _, ps) = pack(&rects, 256).unwrap();
    assert_eq!((ps[0].x, ps[0].y, ps[0].w, ps[0].h), (0, 0, 64, 64));
    assert_eq!((ps[1].x, ps[1].y, ps[1].w, ps[1].h), (32, 64, 32, 32));
    assert_eq!((ps[2].x, ps[2].y, ps[2].w, ps[2].h), (0, 64, 32, 64));
}

#[test]
fn pack_oversized_fails() {
    let rects = vec![rect(0, 5000, 5000)];
    assert_eq!(pack(&rects, 4096), Err(PackError::DoesNotFit));
}

#[test]
fn pack_zero_rects() {
    let rects: Vec<Rect> = Vec::new();
    let (bw, bh, ps) = pack(&rects, 4096).unwrap();
    assert_eq!(bw, 1);
    assert_eq!(bh, 1);
    assert!(ps.is_empty());
}

#[test]
fn pack_rejects_zero_dimension() {
    let rects = vec![rect(0, 0, 7)];
    assert_eq!(pack(&rects, 4096), Err(PackError::InvalidRectangle));
    let rects2 = vec![rect(0, 7, 0)];
    assert_eq!(pack(&rects2, 4096), Err(PackError::InvalidRectangle));
}

#[test]
fn pack_single_exact_fit() {
    let rects = vec![rect(0, 64, 64)];
    let (bw, bh, ps) = pack(&rects, 4096).unwrap();
    assert_eq!((bw, bh), (64, 64));
    assert_eq!((ps[0].x, ps[0].y, ps[0].w, ps[0].h), (0, 0, 64, 64));
}

#[test]
fn pack_deterministic() {
    let rects = vec![rect(0, 40, 30), rect(1, 30, 40), rect(2, 17, 5), rect(3, 5, 17)];
    let a = pack(&rects, 1024).unwrap();
    let b = pack(&rects, 1024).unwrap();
    assert_eq!(a, b);
}

#[test]
fn pack_minimality_recheck() {
    let rects = vec![rect(0, 64, 64), rect(1, 32, 32), rect(2, 32, 64)];
    let (bw, _, _) = pack(&rects, 256).unwrap();
    assert_eq!(bw, 128);
    // Re-attempt at the next smaller candidate: it must fail.
    assert!(try_pack_at(&rects, 64).is_none());
}

#[test]
fn pack_rotates_when_only_fit() {
    let a = Rect { id: 0, w: 4, h: 3, rotatable: false };
    let b = Rect { id: 1, w: 1, h: 2, rotatable: true };
    let (bw, bh, ps) = pack(&vec![a, b], 256).unwrap();
    assert_eq!((bw, bh), (4, 4));
    // Only the rotated orientation fits the remaining 4x1 strip.
    assert_eq!((ps[1].x, ps[1].y, ps[1].w, ps[1].h), (0, 3, 2, 1));
}

#[test]
fn add_same_path_twice() {
    let mut atlas = Atlas::new();
    atlas.add_image(b"sprites/hero.png".to_vec());
    atlas.add_image(b"sprites/hero.png".to_vec());
    assert_eq!(atlas.images.len(), 1);
    assert_eq!(atlas.images[0], b"sprites/hero.png".to_vec());
    assert!(atlas.dirs.is_empty());
}

#[test]
fn add_conflicting_kind_ignored() {
    let mut atlas = Atlas::new();
    atlas.add_image(b"thing".to_vec());
    atlas.add_dir(b"thing".to_vec());
    assert_eq!(atlas.images.len(), 1);
    assert!(atlas.dirs.is_empty());
}

#[test]
fn collect_deduplicates() {
    // An explicit file that also appears in a directory listing: once.
    let items = vec![b"a.png".to_vec(), b"a.png".to_vec()];
    let out = collect(items);
    assert_eq!(out, vec![b"a.png".to_vec()]);
}

#[test]
fn collect_filters_extensions() {
    let items = vec![
        b"a.png".to_vec(),
        b"notes.txt".to_vec(),
        b"b.jpg".to_vec(),
        b"noext".to_vec(),
    ];
    let out = collect(items);
    assert_eq!(out, vec![b"a.png".to_vec(), b"b.jpg".to_vec()]);
}

#[test]
fn collect_from_dir_and_explicit_once() {
    // One tracked directory holding a.png, with a.png also explicit:
    // the collector yields it exactly once, images first.
    let images = vec![b"a.png".to_vec()];
    let listings = vec![vec![b"a.png".to_vec(), b"b.png".to_vec()]];
    let out = collect_from(images, listings);
    assert_eq!(out, vec![b"a.png".to_vec(), b"b.png".to_vec()]);
}

#[test]
fn collect_keeps_first_occurrence_order() {
    let items = vec![b"z.png".to_vec(), b"a.jpg".to_vec(), b"z.png".to_vec()];
    let out = collect(items);
    assert_eq!(out, vec![b"z.png".to_vec(), b"a.jpg".to_vec()]);
}

#[test]
fn manifest_round_trip() {
    let mut atlas = Atlas::new();
    atlas.add_image(b"plain.png".to_vec());
    atlas.add_image(b"odd\\name\nwith newline.png".to_vec());
    atlas.add_dir(b"sprites".to_vec());
    let bytes = encode(&atlas);
    let back = decode(&bytes).unwrap();
    assert_eq!(back.images, atlas.images);
    assert_eq!(back.dirs, atlas.dirs);
}

#[test]
fn decode_rejects_garbage() {
    assert!(decode(&b"x whatever\n".to_vec()).is_none());
    assert!(decode(&b"iunterminated".to_vec()).is_none());
    assert!(decode(&b"ibad\\escape q\n".to_vec()).is_none());
}

#[test]
fn decode_empty_is_empty_manifest() {
    let atlas = decode(&Vec::new()).unwrap();
    assert!(atlas.images.is_empty());
    assert!(atlas.dirs.is_empty());
}

fn solid(w: usize, h: usize, rgba: [u8; 4]) -> PixelBuf {
    let mut data = Vec::new();
    for _ in 0..w * h {
        data.extend_from_slice(&rgba);
    }
    PixelBuf { w, h, data }
}

#[test]
fn blit_copies_and_preserves() {
    let mut dst = PixelBuf::new_transparent(4, 4);
    let src = solid(2, 1, [9, 8, 7, 255]);
    blit(&mut dst, &src, 1, 2);
    // Copied pixels.
    let at = |x: usize, y: usize, c: usize| dst.data[4 * (y * 4 + x) + c];
    assert_eq!([at(1, 2, 0), at(1, 2, 1), at(1, 2, 2), at(1, 2, 3)], [9, 8, 7, 255]);
    assert_eq!([at(2, 2, 0), at(2, 2, 3)], [9, 255]);
    // Untouched pixels stay transparent.
    assert_eq!(at(0, 0, 3), 0);
    assert_eq!(at(3, 2, 3), 0);
    assert_eq!(at(1, 3, 3), 0);
}

#[test]
fn compose_places_buffers() {
    let rects = vec![rect(0, 1, 1), rect(1, 1, 1)];
    let (bw, bh, ps) = pack(&rects, 16).unwrap();
    let buffers = vec![solid(1, 1, [10, 0, 0, 255]), solid(1, 1, [0, 20, 0, 255])];
    assert!(placements_disjoint(&ps));
    let buf = compose(bw, bh, &ps, &buffers).unwrap();
    assert_eq!(buf.w, bw);
    assert_eq!(buf.h, bh);
    let at = |x: usize, y: usize, c: usize| buf.data[4 * (y * buf.w + x) + c];
    assert_eq!(at(ps[0].x, ps[0].y, 0), 10);
    assert_eq!(at(ps[1].x, ps[1].y, 1), 20);
}

#[test]
fn descriptor_unknown_id_fails() {
    let ps = vec![Placement { id: 5, x: 0, y: 0, w: 1, h: 1 }];
    let names = vec![b"only.png".to_vec()];
    assert!(matches!(
        build_descriptor(&ps, &names),
        Err(AssembleError::CopyOutOfBounds)
    ));
}

#[test]
fn compose_out_of_bounds_fails() {
    // The placement rectangle leaves the 4x4 bin.
    let ps = vec![Placement { id: 0, x: 3, y: 0, w: 2, h: 1 }];
    let buffers = vec![solid(2, 1, [1, 2, 3, 4])];
    assert!(matches!(
        compose(4, 4, &ps, &buffers),
        Err(AssembleError::CopyOutOfBounds)
    ));
    // The source buffer disagrees with the placed dimensions.
    let ps2 = vec![Placement { id: 0, x: 0, y: 0, w: 3, h: 1 }];
    assert!(matches!(
        compose(4, 4, &ps2, &buffers),
        Err(AssembleError::CopyOutOfBounds)
    ));
}

#[test]
fn descriptor_resolves_names() {
    let rects = vec![rect(0, 2, 2), rect(1, 1, 1)];
    let (_, _, ps) = pack(&rects, 16).unwrap();
    let names = vec![b"first.png".to_vec(), b"second.png".to_vec()];
    let desc = build_descriptor(&ps, &names).unwrap();
    assert_eq!(desc.entries.len(), 2);
    assert_eq!(desc.entries[0].name, b"first.png".to_vec());
    assert_eq!(desc.entries[1].name, b"second.png".to_vec());
    assert_eq!(desc.entries[0].x, ps[0].x);
    assert_eq!(desc.entries[1].w, ps[1].w);
}
