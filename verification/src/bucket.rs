//! Grouping the pixels of a draw event by the region they fall in.

use crate::draw_event::{hex6_rgb, DrawPixel};
use crate::region::{
    is_local, is_region_coord, local_coords, local_of, region_coords, region_of,
};
use vstd::prelude::*;

verus! {

/// A pixel of a draw call, placed in its region: local coordinates and color.
#[derive(Debug, Clone, Copy, PartialEq, Eq, Structural)]
pub struct RegionPixel {
    pub lx: usize,
    pub ly: usize,
    pub r: u8,
    pub g: u8,
    pub b: u8,
}

/// The pixels of one draw event that fall in one region, in input order.
#[derive(Debug, PartialEq, Eq)]
pub struct RegionBucket {
    pub rx: i32,
    pub ry: i32,
    pub pixels: Vec<RegionPixel>,
}

impl RegionBucket {
    /// The region is one that world coordinates reach, and every pixel lies
    /// inside it.
    pub open spec fn wf(&self) -> bool {
        &&& is_region_coord(self.rx as int)
        &&& is_region_coord(self.ry as int)
        &&& forall|i: int|
            0 <= i < self.pixels@.len() ==> is_local(
                (#[trigger] self.pixels@[i]).lx as int,
                self.pixels@[i].ly as int,
            )
    }

    /// The region that the bucket is for.
    pub open spec fn region(&self) -> (int, int) {
        (self.rx as int, self.ry as int)
    }
}

/// Whether a pixel of a draw call can be drawn: its color is six hex digits.
pub open spec fn is_drawable(p: DrawPixel) -> bool {
    hex6_rgb(p.color@) is Some
}

/// The region that a pixel of a draw call falls in.
pub open spec fn pixel_region(p: DrawPixel) -> (int, int) {
    (region_of(p.x as int), region_of(p.y as int))
}

/// A drawable pixel of a draw call, placed in its region.
pub open spec fn placed(p: DrawPixel) -> RegionPixel {
    let (r, g, b) = match hex6_rgb(p.color@) {
        Some(rgb) => rgb,
        None => (0u8, 0u8, 0u8),
    };
    RegionPixel { lx: local_of(p.x as int) as usize, ly: local_of(p.y as int) as usize, r, g, b }
}

/// The drawable pixels of `pixels` that fall in `region`, placed, in input
/// order.
pub open spec fn pixels_in(pixels: Seq<DrawPixel>, region: (int, int)) -> Seq<RegionPixel>
    decreases pixels.len(),
{
    if pixels.len() == 0 {
        Seq::empty()
    } else {
        let before = pixels_in(pixels.drop_last(), region);
        let p = pixels.last();
        if is_drawable(p) && pixel_region(p) == region {
            before.push(placed(p))
        } else {
            before
        }
    }
}

/// The regions that the drawable pixels of `pixels` fall in, each once, in
/// the order in which the input first reaches them.
pub open spec fn touched_regions(pixels: Seq<DrawPixel>) -> Seq<(int, int)>
    decreases pixels.len(),
{
    if pixels.len() == 0 {
        Seq::empty()
    } else {
        let before = touched_regions(pixels.drop_last());
        let p = pixels.last();
        if is_drawable(p) && !before.contains(pixel_region(p)) {
            before.push(pixel_region(p))
        } else {
            before
        }
    }
}

/// No region occurs twice among the touched regions.
pub proof fn lemma_touched_regions_distinct(pixels: Seq<DrawPixel>)
    ensures
        forall|i: int, j: int|
            0 <= i < j < touched_regions(pixels).len() ==> touched_regions(pixels)[i]
                != touched_regions(pixels)[j],
    decreases pixels.len(),
{
    if pixels.len() > 0 {
        lemma_touched_regions_distinct(pixels.drop_last());
        let before = touched_regions(pixels.drop_last());
        let p = pixels.last();
        if is_drawable(p) && !before.contains(pixel_region(p)) {
            assert forall|i: int, j: int|
                0 <= i < j < touched_regions(pixels).len() implies touched_regions(pixels)[i]
                != touched_regions(pixels)[j] by {
                if j == before.len() {
                    assert(before[i] == touched_regions(pixels)[i]);
                    assert(before.contains(before[i]));
                }
            }
        }
    }
}

/// A region holds a drawable pixel of the input exactly if it is touched.
pub proof fn lemma_touched_iff_pixels(pixels: Seq<DrawPixel>, region: (int, int))
    ensures
        touched_regions(pixels).contains(region) <==> pixels_in(pixels, region).len() > 0,
    decreases pixels.len(),
{
    if pixels.len() > 0 {
        lemma_touched_iff_pixels(pixels.drop_last(), region);
        let before = touched_regions(pixels.drop_last());
        let p = pixels.last();
        if is_drawable(p) && !before.contains(pixel_region(p)) {
            let after = before.push(pixel_region(p));
            assert(after[before.len() as int] == pixel_region(p));
            if before.contains(region) {
                let k = choose|k: int| 0 <= k < before.len() && before[k] == region;
                assert(after[k] == region);
            }
            if after.contains(region) && region != pixel_region(p) {
                let k = choose|k: int| 0 <= k < after.len() && after[k] == region;
                assert(before[k] == region);
            }
        }
    }
}

/// An event whose pixels are all drawable and all fall in one region makes
/// one bucket, which holds every pixel of the event.
pub proof fn lemma_single_region(pixels: Seq<DrawPixel>, region: (int, int))
    requires
        forall|i: int|
            0 <= i < pixels.len() ==> is_drawable(#[trigger] pixels[i]) && pixel_region(pixels[i])
                == region,
    ensures
        pixels_in(pixels, region) == Seq::new(pixels.len(), |i: int| placed(pixels[i])),
        touched_regions(pixels) == if pixels.len() > 0 {
            seq![region]
        } else {
            Seq::<(int, int)>::empty()
        },
    decreases pixels.len(),
{
    if pixels.len() == 0 {
        assert(pixels_in(pixels, region) =~= Seq::new(pixels.len(), |i: int| placed(pixels[i])));
    } else {
        let rest = pixels.drop_last();
        assert forall|i: int| 0 <= i < rest.len() implies is_drawable(#[trigger] rest[i])
            && pixel_region(rest[i]) == region by {
            assert(rest[i] == pixels[i]);
        }
        lemma_single_region(rest, region);
        let p = pixels[pixels.len() - 1];
        assert(is_drawable(p) && pixel_region(p) == region);
        assert(pixels_in(pixels, region) =~= Seq::new(pixels.len(), |i: int| placed(pixels[i])));
        if rest.len() > 0 {
            assert(seq![region][0] == region);
            assert(touched_regions(rest).contains(region));
        } else {
            assert(touched_regions(pixels) =~= seq![region]);
        }
    }
}

/// Group the drawable pixels of a draw event by region. Pixels whose color
/// is not six hex digits are left out. Each region appears once, in the
/// order in which the input first reaches it, and keeps its pixels in input
/// order.
pub fn bucket_pixels(pixels: &Vec<DrawPixel>) -> (buckets: Vec<RegionBucket>)
    ensures
        buckets@.len() == touched_regions(pixels@).len(),
        forall|k: int|
            0 <= k < buckets@.len() ==> {
                &&& (#[trigger] buckets@[k]).region() == touched_regions(pixels@)[k]
                &&& buckets@[k].pixels@ == pixels_in(pixels@, touched_regions(pixels@)[k])
                &&& buckets@[k].pixels@.len() > 0
                &&& buckets@[k].wf()
            },
        forall|j: int, k: int|
            0 <= j < k < buckets@.len() ==> (#[trigger] buckets@[j]).region() != (
            #[trigger] buckets@[k]).region(),
{
    let mut buckets: Vec<RegionBucket> = Vec::new();
    let mut i: usize = 0;
    while i < pixels.len()
        invariant
            i <= pixels@.len(),
            buckets@.len() == touched_regions(pixels@.take(i as int)).len(),
            forall|k: int|
                0 <= k < buckets@.len() ==> {
                    &&& (#[trigger] buckets@[k]).region() == touched_regions(
                        pixels@.take(i as int),
                    )[k]
                    &&& buckets@[k].pixels@ == pixels_in(
                        pixels@.take(i as int),
                        touched_regions(pixels@.take(i as int))[k],
                    )
                    &&& buckets@[k].wf()
                },
        decreases pixels@.len() - i,
    {
        let ghost prefix = pixels@.take(i as int);
        let ghost next = pixels@.take(i + 1);
        let ghost touched = touched_regions(prefix);
        proof {
            assert(next.drop_last() =~= prefix);
            assert(next.last() == pixels@[i as int]);
            lemma_touched_regions_distinct(prefix);
        }
        let p = &pixels[i];
        match p.rgb() {
            Some((r, g, b)) => {
                let (rx, ry) = region_coords(p.x, p.y);
                let (lx, ly) = local_coords(p.x, p.y);
                let rp = RegionPixel { lx, ly, r, g, b };
                assert(rp == placed(*p));
                let mut j: usize = 0;
                while j < buckets.len() && !(buckets[j].rx == rx && buckets[j].ry == ry)
                    invariant
                        j <= buckets@.len(),
                        forall|k: int|
                            0 <= k < j ==> (#[trigger] buckets@[k]).region() != (
                                rx as int,
                                ry as int,
                            ),
                    decreases buckets@.len() - j,
                {
                    j = j + 1;
                }
                if j < buckets.len() {
                    proof {
                        assert(buckets@[j as int].region() == pixel_region(*p));
                        assert(touched[j as int] == pixel_region(*p));
                        assert(touched.contains(pixel_region(*p)));
                    }
                    let ghost old_buckets = buckets@;
                    buckets[j].pixels.push(rp);
                    proof {
                        assert(touched_regions(next) == touched);
                        assert forall|k: int| 0 <= k < buckets@.len() implies {
                            &&& (#[trigger] buckets@[k]).region() == touched_regions(next)[k]
                            &&& buckets@[k].pixels@ == pixels_in(next, touched_regions(next)[k])
                            &&& buckets@[k].wf()
                        } by {
                            assert(old_buckets[k].region() == touched[k]);
                            if k == j {
                            } else {
                                assert(buckets@[k] == old_buckets[k]);
                                assert(touched[k] != touched[j as int]);
                            }
                        }
                    }
                } else {
                    proof {
                        if touched.contains(pixel_region(*p)) {
                            let k = choose|k: int|
                                0 <= k < touched.len() && touched[k] == pixel_region(*p);
                            assert(buckets@[k].region() == touched[k]);
                        }
                        lemma_touched_iff_pixels(prefix, pixel_region(*p));
                        assert(pixels_in(prefix, pixel_region(*p)) =~= Seq::empty());
                    }
                    let ghost old_buckets = buckets@;
                    let mut fresh: Vec<RegionPixel> = Vec::new();
                    fresh.push(rp);
                    buckets.push(RegionBucket { rx, ry, pixels: fresh });
                    proof {
                        assert(touched_regions(next) == touched.push(pixel_region(*p)));
                        assert forall|k: int| 0 <= k < buckets@.len() implies {
                            &&& (#[trigger] buckets@[k]).region() == touched_regions(next)[k]
                            &&& buckets@[k].pixels@ == pixels_in(next, touched_regions(next)[k])
                            &&& buckets@[k].wf()
                        } by {
                            if k < old_buckets.len() {
                                assert(buckets@[k] == old_buckets[k]);
                                assert(old_buckets[k].region() == touched[k]);
                                assert(touched.contains(touched[k]));
                            } else {
                                assert(fresh@ =~= pixels_in(next, pixel_region(*p)));
                            }
                        }
                    }
                }
            },
            None => {
                proof {
                    assert(touched_regions(next) == touched);
                }
            },
        }
        i = i + 1;
    }
    proof {
        assert(pixels@.take(pixels@.len() as int) =~= pixels@);
        lemma_touched_regions_distinct(pixels@);
        assert forall|k: int| 0 <= k < buckets@.len() implies (#[trigger] buckets@[k]).pixels@.len()
            > 0 by {
            assert(buckets@[k].region() == touched_regions(pixels@)[k]);
            assert(touched_regions(pixels@).contains(touched_regions(pixels@)[k]));
            lemma_touched_iff_pixels(pixels@, touched_regions(pixels@)[k]);
        }
        assert forall|j: int, k: int| 0 <= j < k < buckets@.len() implies (
        #[trigger] buckets@[j]).region() != (#[trigger] buckets@[k]).region() by {
            assert(buckets@[j].region() == touched_regions(pixels@)[j]);
            assert(buckets@[k].region() == touched_regions(pixels@)[k]);
        }
    }
    buckets
}

} // verus!
