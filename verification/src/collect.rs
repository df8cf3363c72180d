//! The image collector: the explicit image files first, then each tracked
//! directory's listing, deduplicated (first occurrence wins) and filtered
//! to the recognized raster-image extensions. The output order is the
//! pack order, and it is a function of the inputs alone.

use vstd::prelude::*;
use crate::paths::{no_dups, supported_ext, has_supported_ext, holds_path, copy_bytes,
    lemma_deep_len, lemma_deep_index};

verus! {

broadcast use lemma_deep_len, lemma_deep_index;

/// Walk the items in order; keep an unseen item with a supported
/// extension, and mark every item seen either way.
pub open spec fn spec_dedup_filter(items: Seq<Seq<u8>>, seen: Seq<Seq<u8>>) -> Seq<Seq<u8>>
    decreases items.len(),
{
    if items.len() == 0 {
        Seq::<Seq<u8>>::empty()
    } else {
        let h = items[0];
        let rest = spec_dedup_filter(items.drop_first(), seen.push(h));
        if supported_ext(h) && !seen.contains(h) {
            seq![h] + rest
        } else {
            rest
        }
    }
}

/// What the collector yields for the given items.
pub open spec fn spec_collect(items: Seq<Seq<u8>>) -> Seq<Seq<u8>> {
    spec_dedup_filter(items, Seq::<Seq<u8>>::empty())
}

/// What comes out: exactly the supported, not-yet-seen items, each once.
pub proof fn lemma_dedup_filter_props(items: Seq<Seq<u8>>, seen: Seq<Seq<u8>>)
    ensures
        forall|p: Seq<u8>|
            #![trigger spec_dedup_filter(items, seen).contains(p)]
            #![trigger items.contains(p)]
            spec_dedup_filter(items, seen).contains(p)
                <==> (items.contains(p) && supported_ext(p) && !seen.contains(p)),
        no_dups(spec_dedup_filter(items, seen)),
    decreases items.len(),
{
    if items.len() == 0 {
        assert forall|p: Seq<u8>| #[trigger] spec_dedup_filter(items, seen).contains(p)
            implies false by {
        }
    } else {
        let h = items[0];
        let tail = items.drop_first();
        let seen2 = seen.push(h);
        lemma_dedup_filter_props(tail, seen2);
        let rest = spec_dedup_filter(tail, seen2);
        let out = spec_dedup_filter(items, seen);
        assert(seen2[seen.len() as int] == h);
        assert(seen2.contains(h));
        assert forall|p: Seq<u8>| #[trigger] out.contains(p)
            implies (items.contains(p) && supported_ext(p) && !seen.contains(p)) by {
            if supported_ext(h) && !seen.contains(h) {
                let i = choose|i: int| 0 <= i < out.len() && out[i] == p;
                if i == 0 {
                    assert(p == h);
                    assert(items[0] == p);
                } else {
                    assert(rest[i - 1] == p);
                    assert(rest.contains(p));
                    let t = choose|t: int| 0 <= t < tail.len() && tail[t] == p;
                    assert(items[t + 1] == p);
                    assert(!seen2.contains(p));
                    if seen.contains(p) {
                        let q = choose|q: int| 0 <= q < seen.len() && seen[q] == p;
                        assert(seen2[q] == p);
                    }
                }
            } else {
                assert(rest.contains(p));
                let t = choose|t: int| 0 <= t < tail.len() && tail[t] == p;
                assert(items[t + 1] == p);
                if seen.contains(p) {
                    let q = choose|q: int| 0 <= q < seen.len() && seen[q] == p;
                    assert(seen2[q] == p);
                }
            }
        }
        assert forall|p: Seq<u8>| items.contains(p) && supported_ext(p) && !seen.contains(p)
            implies #[trigger] out.contains(p) by {
            let i = choose|i: int| 0 <= i < items.len() && items[i] == p;
            if p == h {
                if supported_ext(h) && !seen.contains(h) {
                    assert(out[0] == p);
                } else {
                    assert(false);
                }
            } else {
                assert(i > 0);
                assert(tail[i - 1] == p);
                assert(tail.contains(p));
                assert(!seen2.contains(p)) by {
                    if seen2.contains(p) {
                        let q = choose|q: int| 0 <= q < seen2.len() && seen2[q] == p;
                        if q < seen.len() {
                            assert(seen[q] == p);
                        } else {
                            assert(p == h);
                        }
                    }
                }
                assert(rest.contains(p));
                let t = choose|t: int| 0 <= t < rest.len() && rest[t] == p;
                if supported_ext(h) && !seen.contains(h) {
                    assert(out[t + 1] == p);
                } else {
                    assert(out[t] == p);
                }
            }
        }
        assert forall|i: int, j: int| 0 <= i < j < out.len() implies out[i] != out[j] by {
            if supported_ext(h) && !seen.contains(h) {
                if i == 0 {
                    assert(out[0] == h);
                    assert(rest[j - 1] == out[j]);
                    assert(rest.contains(out[j]));
                    assert(!seen2.contains(out[j]));
                } else {
                    assert(rest[i - 1] == out[i] && rest[j - 1] == out[j]);
                }
            } else {
                assert(rest[i] == out[i] && rest[j] == out[j]);
            }
        }
    }
}

/// The items in collection order: the explicit image files first, then
/// each directory's listing, in order.
pub open spec fn spec_items(base: Seq<Seq<u8>>, ls: Seq<Vec<Vec<u8>>>) -> Seq<Seq<u8>>
    decreases ls.len(),
{
    if ls.len() == 0 {
        base
    } else {
        spec_items(base + ls[0].deep_view(), ls.drop_first())
    }
}

/// Concatenating a path list appends its deep view.
proof fn lemma_deep_concat(pre: Vec<Vec<u8>>, post: Vec<Vec<u8>>, other: Vec<Vec<u8>>)
    requires
        post@ == pre@ + other@,
    ensures
        post.deep_view() == pre.deep_view() + other.deep_view(),
{
    assert forall|k: int| 0 <= k < post.deep_view().len()
        implies post.deep_view()[k] == (pre.deep_view() + other.deep_view())[k] by {
        lemma_deep_index(post, k);
        if k < pre@.len() {
            lemma_deep_index(pre, k);
        } else {
            lemma_deep_index(other, k - pre@.len());
        }
    }
    assert(post.deep_view() =~= pre.deep_view() + other.deep_view());
}

/// Collect the image paths of a manifest: the explicit files first, then
/// each directory listing, in order, through the deduplicating filter.
pub fn collect_from(images: Vec<Vec<u8>>, listings: Vec<Vec<Vec<u8>>>) -> (out: Vec<Vec<u8>>)
    ensures
        out.deep_view() == spec_collect(spec_items(images.deep_view(), listings@)),
        no_dups(out.deep_view()),
        forall|p: Seq<u8>|
            #![trigger out.deep_view().contains(p)]
            out.deep_view().contains(p)
                <==> (spec_items(images.deep_view(), listings@).contains(p)
                    && supported_ext(p)),
{
    let ghost images0 = images.deep_view();
    let ghost listings0 = listings@;
    let mut items = images;
    let mut lists = listings;
    while lists.len() > 0
        invariant
            spec_items(items.deep_view(), lists@) == spec_items(images0, listings0),
        decreases lists@.len(),
    {
        let ghost pre_items = items;
        let ghost pre_lists = lists@;
        let mut l = lists.remove(0);
        let ghost l0 = l;
        items.append(&mut l);
        proof {
            assert(lists@ =~= pre_lists.drop_first());
            lemma_deep_concat(pre_items, items, l0);
            assert(spec_items(pre_items.deep_view(), pre_lists)
                == spec_items(pre_items.deep_view() + pre_lists[0].deep_view(),
                    pre_lists.drop_first()));
        }
    }
    proof {
        assert(spec_items(items.deep_view(), lists@) == items.deep_view());
    }
    collect(items)
}

/// Collect image paths from one ordered item list: duplicates suppressed
/// (first occurrence wins); only recognized raster-image extensions kept.
pub fn collect(items: Vec<Vec<u8>>) -> (out: Vec<Vec<u8>>)
    ensures
        out.deep_view() == spec_collect(items.deep_view()),
        no_dups(out.deep_view()),
        forall|p: Seq<u8>|
            #![trigger out.deep_view().contains(p)]
            #![trigger items.deep_view().contains(p)]
            out.deep_view().contains(p)
                <==> (items.deep_view().contains(p) && supported_ext(p)),
{
    let ghost all = items.deep_view();
    let mut out: Vec<Vec<u8>> = Vec::new();
    let mut seen: Vec<Vec<u8>> = Vec::new();
    let mut i: usize = 0;
    proof {
        assert(all.skip(0) =~= all);
        assert(out.deep_view() =~= Seq::<Seq<u8>>::empty());
        assert(seen.deep_view() =~= Seq::<Seq<u8>>::empty());
        assert(out.deep_view() + spec_dedup_filter(all.skip(0), seen.deep_view())
            =~= spec_dedup_filter(all, Seq::<Seq<u8>>::empty()));
    }
    while i < items.len()
        invariant
            all == items.deep_view(),
            i <= items@.len(),
            all.len() == items@.len(),
            spec_collect(all) == out.deep_view() + spec_dedup_filter(all.skip(i as int), seen.deep_view()),
        decreases items@.len() - i,
    {
        let ghost pre_out = out.deep_view();
        let ghost pre_seen = seen.deep_view();
        let ghost rem = all.skip(i as int);
        proof {
            assert(rem.len() > 0);
            assert(rem[0] == all[i as int]);
            assert(rem.drop_first() =~= all.skip(i as int + 1));
            assert(items.deep_view()[i as int] == items@[i as int].deep_view());
        }
        let keep = has_supported_ext(&items[i]) && !holds_path(&seen, &items[i]);
        if keep {
            let item = copy_bytes(&items[i]);
            proof {
                assert(item@ == all[i as int]);
            }
            out.push(item);
        }
        let item2 = copy_bytes(&items[i]);
        proof {
            assert(item2@ == all[i as int]);
        }
        seen.push(item2);
        proof {
            assert(seen.deep_view() =~= pre_seen.push(all[i as int]));
            if keep {
                assert(out.deep_view() =~= pre_out.push(all[i as int]));
                assert(spec_dedup_filter(rem, pre_seen)
                    == seq![all[i as int]] + spec_dedup_filter(rem.drop_first(), pre_seen.push(all[i as int])));
                assert(pre_out + spec_dedup_filter(rem, pre_seen)
                    =~= out.deep_view() + spec_dedup_filter(all.skip(i as int + 1), seen.deep_view()));
            } else {
                assert(spec_dedup_filter(rem, pre_seen)
                    == spec_dedup_filter(rem.drop_first(), pre_seen.push(all[i as int])));
                assert(pre_out + spec_dedup_filter(rem, pre_seen)
                    =~= out.deep_view() + spec_dedup_filter(all.skip(i as int + 1), seen.deep_view()));
            }
        }
        i = i + 1;
    }
    proof {
        assert(all.skip(i as int).len() == 0);
        assert(spec_dedup_filter(all.skip(i as int), seen.deep_view())
            =~= Seq::<Seq<u8>>::empty());
        assert(out.deep_view() + Seq::<Seq<u8>>::empty() =~= out.deep_view());
        lemma_dedup_filter_props(all, Seq::<Seq<u8>>::empty());
    }
    out
}

} // verus!
