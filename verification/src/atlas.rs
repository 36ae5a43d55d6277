//! A guillotine rectangle packer for texture atlases.
//!
//! The packer keeps a list of pairwise disjoint empty rectangles inside its
//! bounds. Packing claims space inside one of them and splits the leftover
//! into at most two new empty rectangles, so every placed rectangle stays
//! disjoint from all space the packer can ever hand out afterwards.

use vstd::prelude::*;

verus! {

/// A rectangle as `(x, y, width, height)`.
pub open spec fn rect_in_bounds(r: (u32, u32, u32, u32), w: u32, h: u32) -> bool {
    r.0 + r.2 <= w && r.1 + r.3 <= h
}

/// Two rectangles share no area.
pub open spec fn rects_disjoint(a: (u32, u32, u32, u32), b: (u32, u32, u32, u32)) -> bool {
    ||| a.0 + a.2 <= b.0
    ||| b.0 + b.2 <= a.0
    ||| a.1 + a.3 <= b.1
    ||| b.1 + b.3 <= a.1
}

/// `a` lies entirely inside `b`.
pub open spec fn rect_inside(a: (u32, u32, u32, u32), b: (u32, u32, u32, u32)) -> bool {
    b.0 <= a.0 && a.0 + a.2 <= b.0 + b.2 && b.1 <= a.1 && a.1 + a.3 <= b.1 + b.3
}

/// A rectangle inside one of two disjoint rectangles is disjoint from the
/// other.
pub proof fn lemma_inside_disjoint(
    a: (u32, u32, u32, u32),
    b: (u32, u32, u32, u32),
    c: (u32, u32, u32, u32),
)
    requires
        rect_inside(a, b),
        rects_disjoint(b, c),
    ensures
        rects_disjoint(a, c),
{
}

/// The rectangle fits the space directly, or rotated when allowed.
pub open spec fn space_fits(s: (u32, u32, u32, u32), w: u32, h: u32, rot: bool) -> bool {
    (w <= s.2 && h <= s.3) || (rot && h <= s.2 && w <= s.3)
}

/// The dimensions a fitting rectangle is placed with: rotated when only the
/// rotated orientation fits, or when both fit and rotating leaves the
/// better-balanced free area.
pub open spec fn pack_dims(s: (u32, u32, u32, u32), w: u32, h: u32, rot: bool) -> (u32, u32) {
    let fd = w <= s.2 && h <= s.3;
    let fr = rot && h <= s.2 && w <= s.3;
    if fd && fr {
        if (s.2 - w) * (s.3 - h) > (s.2 - h) * (s.3 - w) {
            (h, w)
        } else {
            (w, h)
        }
    } else if fr {
        (h, w)
    } else {
        (w, h)
    }
}

/// The rectangle lies inside some space of the list.
pub open spec fn inside_some(spaces: Seq<(u32, u32, u32, u32)>, s: (u32, u32, u32, u32)) -> bool {
    exists|i: int| 0 <= i < spaces.len() && #[trigger] rect_inside(s, spaces[i])
}

pub struct Packer {
    pub width: u32,
    pub height: u32,
    pub empty_spaces: Vec<(u32, u32, u32, u32)>,
    pub allow_rotate: bool,
}

impl Packer {
    pub open spec fn spaces(self) -> Seq<(u32, u32, u32, u32)> {
        self.empty_spaces@
    }

    pub open spec fn spec_width(self) -> u32 {
        self.width
    }

    pub open spec fn spec_height(self) -> u32 {
        self.height
    }

    /// Every empty space lies in bounds and no two overlap.
    pub open spec fn wf(self) -> bool {
        &&& forall|i: int|
            0 <= i < self.spaces().len() ==> rect_in_bounds(
                #[trigger] self.spaces()[i],
                self.width,
                self.height,
            )
        &&& forall|i: int, j: int|
            0 <= i < j < self.spaces().len() ==> rects_disjoint(
                #[trigger] self.spaces()[i],
                #[trigger] self.spaces()[j],
            )
    }

    /// An atlas of the given size, entirely empty.
    pub fn new(width: u32, height: u32, allow_rotate: bool) -> (r: Packer)
        ensures
            r.wf(),
            r.spec_width() == width,
            r.spec_height() == height,
            r.allow_rotate == allow_rotate,
            r.spaces() == seq![(0u32, 0u32, width, height)],
    {
        let mut empty_spaces: Vec<(u32, u32, u32, u32)> = Vec::new();
        empty_spaces.push((0, 0, width, height));
        proof {
            assert(empty_spaces@ =~= seq![(0u32, 0u32, width, height)]);
        }
        Packer { width, height, empty_spaces, allow_rotate }
    }

    /// Forget every placement and hand the whole atlas back as one empty
    /// space.
    pub fn reset(&mut self)
        ensures
            final(self).wf(),
            final(self).spec_width() == old(self).spec_width(),
            final(self).spec_height() == old(self).spec_height(),
            final(self).allow_rotate == old(self).allow_rotate,
            final(self).spaces() == seq![
                (0u32, 0u32, old(self).spec_width(), old(self).spec_height()),
            ],
    {
        let mut empty_spaces: Vec<(u32, u32, u32, u32)> = Vec::new();
        empty_spaces.push((0, 0, self.width, self.height));
        proof {
            assert(empty_spaces@ =~= seq![(0u32, 0u32, self.width, self.height)]);
        }
        self.empty_spaces = empty_spaces;
    }

    /// Claim a `w` by `h` rectangle (possibly rotated, when allowed: check
    /// the returned width) out of one empty space. The claimed rectangle
    /// lies inside the atlas, inside the space it was cut from, and apart
    /// from every empty space that remains; when `None` comes back, nothing
    /// changed and no empty space could hold the rectangle either way.
    #[verifier::loop_isolation(false)]
    pub fn pack(&mut self, w: u32, h: u32) -> (r: Option<(u32, u32, u32, u32)>)
        requires
            old(self).wf(),
        ensures
            final(self).wf(),
            final(self).spec_width() == old(self).spec_width(),
            final(self).spec_height() == old(self).spec_height(),
            final(self).allow_rotate == old(self).allow_rotate,
            match r {
                Some(rect) => {
                    &&& exists|i: int|
                        {
                            let s = #[trigger] old(self).spaces()[i];
                            &&& 0 <= i < old(self).spaces().len()
                            &&& space_fits(s, w, h, old(self).allow_rotate)
                            &&& (forall|j: int|
                                0 <= j < i ==> !space_fits(
                                    #[trigger] old(self).spaces()[j],
                                    w,
                                    h,
                                    old(self).allow_rotate,
                                ))
                            &&& rect == (
                                s.0,
                                s.1,
                                pack_dims(s, w, h, old(self).allow_rotate).0,
                                pack_dims(s, w, h, old(self).allow_rotate).1,
                            )
                        }
                    &&& rect_in_bounds(rect, old(self).spec_width(), old(self).spec_height())
                    &&& forall|j: int|
                        0 <= j < final(self).spaces().len() ==> rects_disjoint(
                            rect,
                            #[trigger] final(self).spaces()[j],
                        )
                    &&& forall|j: int|
                        0 <= j < final(self).spaces().len() ==> inside_some(
                            old(self).spaces(),
                            #[trigger] final(self).spaces()[j],
                        )
                },
                None => *final(self) == *old(self) && forall|i: int|
                    0 <= i < old(self).spaces().len() ==> !space_fits(
                        #[trigger] old(self).spaces()[i],
                        w,
                        h,
                        old(self).allow_rotate,
                    ),
            },
    {
        let ghost pre = *self;
        let len = self.empty_spaces.len();
        let mut i: usize = 0;
        while i < len
            invariant
                i <= len,
                *self == pre,
                len == pre.spaces().len(),
                forall|j: int|
                    0 <= j < i ==> !space_fits(#[trigger] pre.spaces()[j], w, h, pre.allow_rotate),
            decreases len - i,
        {
            let (ex, ey, ew, eh) = self.empty_spaces[i];
            let fits_direct = w <= ew && h <= eh;
            let fits_rot = self.allow_rotate && h <= ew && w <= eh;
            if fits_direct || fits_rot {
                let mut pw = w;
                let mut ph = h;
                if fits_direct && fits_rot {
                    // both orientations fit: keep the better-balanced leftover
                    proof {
                        assert(((ew - w) as u64) * ((eh - h) as u64) < 0x1_0000_0000_0000_0000)
                            by (nonlinear_arith)
                            requires
                                ((ew - w) as u64) < 0x1_0000_0000 && ((eh - h) as u64)
                                    < 0x1_0000_0000,
                        ;
                        assert(((ew - h) as u64) * ((eh - w) as u64) < 0x1_0000_0000_0000_0000)
                            by (nonlinear_arith)
                            requires
                                ((ew - h) as u64) < 0x1_0000_0000 && ((eh - w) as u64)
                                    < 0x1_0000_0000,
                        ;
                    }
                    let area_direct = ((ew - w) as u64) * ((eh - h) as u64);
                    let area_rot = ((ew - h) as u64) * ((eh - w) as u64);
                    if area_direct > area_rot {
                        pw = h;
                        ph = w;
                    }
                } else if fits_rot {
                    pw = h;
                    ph = w;
                }
                let rect = (ex, ey, pw, ph);
                let ghost sp = pre.spaces()[i as int];
                let ghost spaces0 = self.empty_spaces@;
                if pw < ew && ph < eh {
                    if ew - pw < eh - ph {
                        self.empty_spaces.set(i, (ex + pw, ey, ew - pw, ph));
                        self.empty_spaces.push((ex, ey + ph, ew, eh - ph));
                    } else {
                        self.empty_spaces.set(i, (ex, ey + ph, pw, eh - ph));
                        self.empty_spaces.push((ex + pw, ey, ew - pw, eh));
                    }
                } else if ph == eh {
                    self.empty_spaces.set(i, (ex + pw, ey, ew - pw, eh));
                } else if pw == ew {
                    self.empty_spaces.set(i, (ex, ey + ph, ew, eh - ph));
                } else {
                    self.empty_spaces.swap_remove(i);
                }
                proof {
                    assert(rect_inside(rect, sp));
                    assert(space_fits(sp, w, h, pre.allow_rotate));
                    assert(rect == (
                        sp.0,
                        sp.1,
                        pack_dims(sp, w, h, pre.allow_rotate).0,
                        pack_dims(sp, w, h, pre.allow_rotate).1,
                    ));
                    assert forall|j: int|
                        0 <= j < self.spaces().len() implies inside_some(
                        pre.spaces(),
                        #[trigger] self.spaces()[j],
                    ) by {
                        if self.spaces().len() == spaces0.len() + 1 {
                            if j == i as int || j == spaces0.len() {
                                assert(rect_inside(self.spaces()[j], sp));
                            } else {
                                assert(rect_inside(self.spaces()[j], spaces0[j]));
                            }
                        } else if self.spaces().len() == spaces0.len() {
                            if j == i as int {
                                assert(rect_inside(self.spaces()[j], sp));
                            } else {
                                assert(rect_inside(self.spaces()[j], spaces0[j]));
                            }
                        } else {
                            if j == i as int {
                                assert(rect_inside(self.spaces()[j], spaces0[spaces0.len() - 1]));
                            } else {
                                assert(rect_inside(self.spaces()[j], spaces0[j]));
                            }
                        }
                    }
                    assert forall|j: int|
                        0 <= j < self.spaces().len() implies rects_disjoint(
                        rect,
                        #[trigger] self.spaces()[j],
                    ) && rect_in_bounds(self.spaces()[j], pre.width, pre.height) by {
                        let s = self.spaces()[j];
                        if j < spaces0.len() && j != i as int && self.spaces()[j] == spaces0[j] {
                            lemma_inside_disjoint(rect, sp, spaces0[j]);
                        } else if self.spaces().len() == spaces0.len() + 1 && (j == i as int || j
                            == spaces0.len()) {
                        } else if self.spaces().len() == spaces0.len() && j == i as int {
                        } else if self.spaces().len() == spaces0.len() - 1 {
                            if j == i as int {
                                lemma_inside_disjoint(rect, sp, spaces0[spaces0.len() - 1]);
                            } else {
                                lemma_inside_disjoint(rect, sp, spaces0[j]);
                            }
                        }
                    }
                    assert forall|j1: int, j2: int|
                        0 <= j1 < j2 < self.spaces().len() implies rects_disjoint(
                        #[trigger] self.spaces()[j1],
                        #[trigger] self.spaces()[j2],
                    ) by {
                        let a = self.spaces()[j1];
                        let b = self.spaces()[j2];
                        if self.spaces().len() == spaces0.len() + 1 {
                            // split: the two fresh pieces lie inside the old
                            // space, apart from each other and everyone else
                            if j1 != i as int && j2 != i as int && j2 != spaces0.len() {
                            } else if j1 == i as int && j2 == spaces0.len() {
                            } else if j1 == i as int {
                                lemma_inside_disjoint(a, sp, spaces0[j2]);
                            } else if j2 == spaces0.len() {
                                lemma_inside_disjoint(b, sp, spaces0[j1]);
                            } else if j2 == i as int {
                                lemma_inside_disjoint(b, sp, spaces0[j1]);
                            }
                        } else if self.spaces().len() == spaces0.len() {
                            if j1 == i as int {
                                lemma_inside_disjoint(a, sp, spaces0[j2]);
                            } else if j2 == i as int {
                                lemma_inside_disjoint(b, sp, spaces0[j1]);
                            }
                        } else {
                            if j1 == i as int {
                                lemma_inside_disjoint(a, sp, spaces0[spaces0.len() - 1]);
                            } else if j2 == i as int {
                                lemma_inside_disjoint(b, sp, spaces0[spaces0.len() - 1]);
                            }
                        }
                    }
                }
                return Some(rect);
            }
            i = i + 1;
        }
        None
    }

    /// Grow the atlas, adding the newly exposed area as two empty spaces:
    /// the full-length strip along the side that grew more, and the
    /// remaining corner strip.
    pub fn resize(&mut self, width: u32, height: u32)
        requires
            old(self).wf(),
            width >= old(self).spec_width(),
            height >= old(self).spec_height(),
        ensures
            final(self).wf(),
            final(self).spec_width() == width,
            final(self).spec_height() == height,
            final(self).allow_rotate == old(self).allow_rotate,
            width == old(self).spec_width() && height == old(self).spec_height() ==> *final(self)
                == *old(self),
            width != old(self).spec_width() || height != old(self).spec_height() ==> ({
                let ow = old(self).spec_width();
                let oh = old(self).spec_height();
                if width - ow < height - oh {
                    final(self).spaces() == old(self).spaces().push(
                        (0u32, oh, width, (height - oh) as u32),
                    ).push((ow, 0u32, (width - ow) as u32, oh))
                } else {
                    final(self).spaces() == old(self).spaces().push(
                        (ow, 0u32, (width - ow) as u32, height),
                    ).push((0u32, oh, ow, (height - oh) as u32))
                }
            }),
    {
        if width == self.width && height == self.height {
            return ;
        }
        let ghost pre = *self;
        let big: (u32, u32, u32, u32);
        let small: (u32, u32, u32, u32);
        if width - self.width < height - self.height {
            big = (0, self.height, width, height - self.height);
            small = (self.width, 0, width - self.width, self.height);
        } else {
            big = (self.width, 0, width - self.width, height);
            small = (0, self.height, self.width, height - self.height);
        }
        self.empty_spaces.push(big);
        self.empty_spaces.push(small);
        self.width = width;
        self.height = height;
        proof {
            assert forall|i: int, j: int|
                0 <= i < j < self.spaces().len() implies rects_disjoint(
                #[trigger] self.spaces()[i],
                #[trigger] self.spaces()[j],
            ) by {
                if j < pre.spaces().len() {
                } else if i < pre.spaces().len() {
                    assert(rect_in_bounds(pre.spaces()[i], pre.width, pre.height));
                }
            }
        }
    }
}

} // verus!
