use vstd::prelude::*;

use crate::pixel::PixelColor;
use crate::pixel::default_fill;
use crate::pixel::erased_color;
use crate::pixel::erased_pixel;
use crate::source_image::SourceImage;
use crate::source_image::lemma_mul_mono;
use crate::source_image::lemma_rowmajor_in_range;

verus! {

/// One detected object: an inclusive bounding box, the member pixel
/// positions in discovery order, and (after extraction) the tightly cropped
/// image of the object.
pub struct ObjectInfo {
    pub left: usize,
    pub top: usize,
    pub right: usize,
    pub bottom: usize,
    pub pixel_positions: Vec<(usize, usize)>,
    pub image: SourceImage,
}

/// Objects with the same member list agree on membership.
pub proof fn lemma_same_members(a: ObjectInfo, b: ObjectInfo)
    requires
        a.pixel_positions@ == b.pixel_positions@,
    ensures
        forall|n: int, x: int, y: int|
            #[trigger] a.member_among_first(n, x, y) ==> b.member_among_first(n, x, y),
        forall|n: int, x: int, y: int|
            #[trigger] b.member_among_first(n, x, y) ==> a.member_among_first(n, x, y),
{
    assert forall|n: int, x: int, y: int| #[trigger] a.member_among_first(n, x, y) implies b.member_among_first(
        n,
        x,
        y,
    ) by {
        let k = choose|k: int| 0 <= k < n && #[trigger] a.member_at(k, x, y);
        assert(b.member_at(k, x, y));
    }
    assert forall|n: int, x: int, y: int| #[trigger] b.member_among_first(n, x, y) implies a.member_among_first(
        n,
        x,
        y,
    ) by {
        let k = choose|k: int| 0 <= k < n && #[trigger] b.member_at(k, x, y);
        assert(a.member_at(k, x, y));
    }
}

/// Membership persists when the member list grows at the end.
pub proof fn lemma_members_grow(a: ObjectInfo, b: ObjectInfo)
    requires
        a.pixel_positions@.len() <= b.pixel_positions@.len(),
        forall|k: int|
            0 <= k < a.pixel_positions@.len() ==> #[trigger] b.pixel_positions@[k]
                == a.pixel_positions@[k],
    ensures
        forall|x: int, y: int| #[trigger] a.has_member(x, y) ==> b.has_member(x, y),
{
    assert forall|x: int, y: int| #[trigger] a.has_member(x, y) implies b.has_member(x, y) by {
        let k = choose|k: int|
            0 <= k < a.pixel_positions@.len() && #[trigger] a.member_at(k, x, y);
        assert(b.member_at(k, x, y));
    }
}

/// Appending a pixel while widening the box only as far as that pixel keeps
/// the box tight.
pub proof fn lemma_bbox_extend(a: ObjectInfo, b: ObjectInfo, x: usize, y: usize)
    requires
        b.pixel_positions@ == a.pixel_positions@.push((x, y)),
        b.left == (if x < a.left {
            x
        } else {
            a.left
        }),
        b.top == (if y < a.top {
            y
        } else {
            a.top
        }),
        b.right == (if x > a.right {
            x
        } else {
            a.right
        }),
        b.bottom == (if y > a.bottom {
            y
        } else {
            a.bottom
        }),
        a.pixel_positions@.len() == 0 ==> a.left == x && a.top == y && a.right == x && a.bottom
            == y,
        a.pixel_positions@.len() > 0 ==> a.bbox_tight(),
    ensures
        b.bbox_tight(),
{
    let n = a.pixel_positions@.len() as int;
    assert(b.pos_x(n) == x as int && b.pos_y(n) == y as int);
    assert forall|k: int| 0 <= k < n + 1 implies b.in_box(#[trigger] b.pos_x(k), b.pos_y(k)) by {
        if k < n {
            assert(a.in_box(a.pos_x(k), a.pos_y(k)));
            assert(b.pos_x(k) == a.pos_x(k) && b.pos_y(k) == a.pos_y(k));
        }
    }
    if n == 0 {
        assert(b.pos_x(0) == b.left as int);
        assert(b.pos_x(0) == b.right as int);
        assert(b.pos_y(0) == b.top as int);
        assert(b.pos_y(0) == b.bottom as int);
    } else {
        if x < a.left {
            assert(b.pos_x(n) == b.left as int);
        } else {
            let k = choose|k: int|
                0 <= k < a.pixel_positions@.len() && #[trigger] a.pos_x(k) == a.left as int;
            assert(b.pos_x(k) == b.left as int);
        }
        if x > a.right {
            assert(b.pos_x(n) == b.right as int);
        } else {
            let k = choose|k: int|
                0 <= k < a.pixel_positions@.len() && #[trigger] a.pos_x(k) == a.right as int;
            assert(b.pos_x(k) == b.right as int);
        }
        if y < a.top {
            assert(b.pos_y(n) == b.top as int);
        } else {
            let k = choose|k: int|
                0 <= k < a.pixel_positions@.len() && #[trigger] a.pos_y(k) == a.top as int;
            assert(b.pos_y(k) == b.top as int);
        }
        if y > a.bottom {
            assert(b.pos_y(n) == b.bottom as int);
        } else {
            let k = choose|k: int|
                0 <= k < a.pixel_positions@.len() && #[trigger] a.pos_y(k) == a.bottom as int;
            assert(b.pos_y(k) == b.bottom as int);
        }
    }
}

impl ObjectInfo {
    /// The x coordinate of the k-th member.
    pub open spec fn pos_x(self, k: int) -> int {
        self.pixel_positions@[k].0 as int
    }

    /// The y coordinate of the k-th member.
    pub open spec fn pos_y(self, k: int) -> int {
        self.pixel_positions@[k].1 as int
    }

    /// The k-th member is the pixel at (x, y).
    pub open spec fn member_at(self, k: int, x: int, y: int) -> bool {
        self.pos_x(k) == x && self.pos_y(k) == y
    }

    /// (x, y) is among the first n members.
    pub open spec fn member_among_first(self, n: int, x: int, y: int) -> bool {
        exists|k: int| 0 <= k < n && #[trigger] self.member_at(k, x, y)
    }

    /// (x, y) is a member of this object.
    pub open spec fn has_member(self, x: int, y: int) -> bool {
        self.member_among_first(self.pixel_positions@.len() as int, x, y)
    }

    /// (x, y) lies inside the inclusive bounding box.
    pub open spec fn in_box(self, x: int, y: int) -> bool {
        self.left <= x <= self.right && self.top <= y <= self.bottom
    }

    /// The bounding box is the tightest axis-aligned rectangle around the
    /// members: every member lies inside it, and each of its four edges is
    /// attained by some member.
    pub open spec fn bbox_tight(self) -> bool {
        &&& self.pixel_positions@.len() > 0
        &&& forall|k: int|
            0 <= k < self.pixel_positions@.len() ==> self.in_box(
                #[trigger] self.pos_x(k),
                self.pos_y(k),
            )
        &&& exists|k: int|
            0 <= k < self.pixel_positions@.len() && #[trigger] self.pos_x(k) == self.left
        &&& exists|k: int|
            0 <= k < self.pixel_positions@.len() && #[trigger] self.pos_x(k) == self.right
        &&& exists|k: int|
            0 <= k < self.pixel_positions@.len() && #[trigger] self.pos_y(k) == self.top
        &&& exists|k: int|
            0 <= k < self.pixel_positions@.len() && #[trigger] self.pos_y(k) == self.bottom
    }

    /// No pixel position occurs twice in the member list.
    pub open spec fn members_distinct(self) -> bool {
        forall|i: int, j: int|
            0 <= i < j < self.pixel_positions@.len() ==> #[trigger] self.pixel_positions@[i]
                != #[trigger] self.pixel_positions@[j]
    }

    /// Every member lies inside a width x height image.
    pub open spec fn members_in_bounds(self, width: int, height: int) -> bool {
        forall|k: int|
            0 <= k < self.pixel_positions@.len() ==> #[trigger] self.pos_x(k) < width
                && self.pos_y(k) < height
    }

    /// The extracted image is the tight crop of this object out of `orig`:
    /// sized to the bounding box, member pixels copied to their local
    /// coordinates, every other position left at the default fill.
    pub open spec fn crop_ok(self, orig: SourceImage) -> bool {
        &&& self.image.wf()
        &&& self.image.width == self.right - self.left + 1
        &&& self.image.height == self.bottom - self.top + 1
        &&& forall|x: int, y: int|
            #[trigger] self.has_member(x, y) ==> self.image.pixel_at(x - self.left, y - self.top)
                == orig.pixel_at(x, y)
        &&& forall|u: int, v: int|
            0 <= u < self.image.width && 0 <= v < self.image.height && !self.has_member(
                self.left + u,
                self.top + v,
            ) ==> #[trigger] self.image.pixel_at(u, v) == default_fill()
    }

    /// Starts an object record at its seed pixel: the bounding box collapses
    /// onto the seed and no member has been recorded yet.
    pub fn new(start_x: usize, start_y: usize) -> (r: ObjectInfo)
        ensures
            r.left == start_x,
            r.top == start_y,
            r.right == start_x,
            r.bottom == start_y,
            r.pixel_positions@.len() == 0,
            r.image.wf(),
            r.image.width == 0,
            r.image.height == 0,
    {
        ObjectInfo {
            left: start_x,
            top: start_y,
            right: start_x,
            bottom: start_y,
            pixel_positions: Vec::new(),
            image: SourceImage { width: 0, height: 0, data: Vec::new() },
        }
    }

    /// Appends the pixel position and widens the bounding box just enough to
    /// keep the pixel inside it.
    pub fn add_pixel_position(&mut self, x: usize, y: usize)
        ensures
            final(self).pixel_positions@ == old(self).pixel_positions@.push((x, y)),
            final(self).left == (if x < old(self).left {
                x
            } else {
                old(self).left
            }),
            final(self).top == (if y < old(self).top {
                y
            } else {
                old(self).top
            }),
            final(self).right == (if x > old(self).right {
                x
            } else {
                old(self).right
            }),
            final(self).bottom == (if y > old(self).bottom {
                y
            } else {
                old(self).bottom
            }),
    {
        self.pixel_positions.push((x, y));
        if x < self.left {
            self.left = x;
        }
        if y < self.top {
            self.top = y;
        }
        if x > self.right {
            self.right = x;
        }
        if y > self.bottom {
            self.bottom = y;
        }
    }

    /// Materializes the object: allocates the tight crop, copies every member
    /// pixel of `img` into it at local coordinates, and overwrites each of
    /// those source pixels with the erasure color. Every pixel of `img` that
    /// is not a member keeps its value.
    #[verifier::loop_isolation(false)]
    pub fn take_pixels_from_image(&mut self, img: &mut SourceImage)
        requires
            old(img).wf(),
            old(self).bbox_tight(),
            old(self).members_distinct(),
            old(self).members_in_bounds(old(img).width as int, old(img).height as int),
        ensures
            final(img).wf(),
            final(img).width == old(img).width,
            final(img).height == old(img).height,
            forall|x: int, y: int|
                old(img).in_bounds(x, y) && old(self).has_member(x, y)
                    ==> #[trigger] final(img).pixel_at(x, y) == erased_color(),
            forall|x: int, y: int|
                old(img).in_bounds(x, y) && !old(self).has_member(x, y)
                    ==> #[trigger] final(img).pixel_at(x, y) == old(img).pixel_at(x, y),
            final(self).left == old(self).left,
            final(self).top == old(self).top,
            final(self).right == old(self).right,
            final(self).bottom == old(self).bottom,
            final(self).pixel_positions@ == old(self).pixel_positions@,
            final(self).crop_ok(*old(img)),
    {
        proof {
            let kl = choose|k: int|
                0 <= k < self.pixel_positions@.len() && #[trigger] self.pos_x(k)
                    == self.left as int;
            let kr = choose|k: int|
                0 <= k < self.pixel_positions@.len() && #[trigger] self.pos_x(k)
                    == self.right as int;
            let kt = choose|k: int|
                0 <= k < self.pixel_positions@.len() && #[trigger] self.pos_y(k)
                    == self.top as int;
            let kb = choose|k: int|
                0 <= k < self.pixel_positions@.len() && #[trigger] self.pos_y(k)
                    == self.bottom as int;
            assert(self.in_box(self.pos_x(kl), self.pos_y(kl)));
            assert(self.in_box(self.pos_x(kr), self.pos_y(kr)));
            assert(self.in_box(self.pos_x(kt), self.pos_y(kt)));
            assert(self.in_box(self.pos_x(kb), self.pos_y(kb)));
            assert(self.left <= self.right < img.width);
            assert(self.top <= self.bottom < img.height);
        }
        let n: usize = img.data.len();
        let cw: usize = self.right - self.left + 1;
        let ch: usize = self.bottom - self.top + 1;
        proof {
            lemma_mul_mono(cw as int, ch as int, img.width as int, img.height as int);
        }
        let npix: usize = cw * ch;
        let total: usize = 4 * npix;
        let mut data: Vec<u8> = Vec::new();
        let mut i: usize = 0;
        while i < total
            invariant
                i <= total,
                data@.len() == i,
                forall|j: int| 0 <= j < i ==> data@[j] == 0,
            decreases total - i,
        {
            data.push(0u8);
            i = i + 1;
        }
        let mut crop = SourceImage { width: cw, height: ch, data };
        proof {
            assert forall|u: int, v: int| 0 <= u < cw && 0 <= v < ch implies #[trigger] crop.pixel_at(
                u,
                v,
            ) == default_fill() by {
                lemma_rowmajor_in_range(cw as int, ch as int, u, v);
            }
        }
        let ghost orig_img: SourceImage = *img;
        let len: usize = self.pixel_positions.len();
        let mut i: usize = 0;
        while i < len
            invariant
                i <= len,
                img.wf(),
                img.width == orig_img.width,
                img.height == orig_img.height,
                crop.wf(),
                crop.width == cw,
                crop.height == ch,
                forall|x: int, y: int|
                    orig_img.in_bounds(x, y) && self.member_among_first(i as int, x, y)
                        ==> #[trigger] img.pixel_at(x, y) == erased_color(),
                forall|x: int, y: int|
                    orig_img.in_bounds(x, y) && !self.member_among_first(i as int, x, y)
                        ==> #[trigger] img.pixel_at(x, y) == orig_img.pixel_at(x, y),
                forall|x: int, y: int|
                    self.member_among_first(i as int, x, y) ==> #[trigger] crop.pixel_at(
                        x - self.left,
                        y - self.top,
                    ) == orig_img.pixel_at(x, y),
                forall|u: int, v: int|
                    0 <= u < cw && 0 <= v < ch && !self.member_among_first(
                        i as int,
                        self.left + u,
                        self.top + v,
                    ) ==> #[trigger] crop.pixel_at(u, v) == default_fill(),
            decreases len - i,
        {
            let ghost ip: int = i as int;
            let pos: (usize, usize) = self.pixel_positions[i];
            let x: usize = pos.0;
            let y: usize = pos.1;
            proof {
                assert(self.member_at(ip, x as int, y as int));
                assert(self.in_box(self.pos_x(ip), self.pos_y(ip)));
                assert(!self.member_among_first(ip, x as int, y as int)) by {
                    if self.member_among_first(ip, x as int, y as int) {
                        let k = choose|k: int|
                            0 <= k < ip && #[trigger] self.member_at(k, x as int, y as int);
                        assert(self.pixel_positions@[k].0 == self.pixel_positions@[ip].0);
                        assert(self.pixel_positions@[k].1 == self.pixel_positions@[ip].1);
                        assert(self.pixel_positions@[k] == self.pixel_positions@[ip]);
                        assert(false);
                    }
                }
            }
            let c: PixelColor = img.get_pixel(x, y);
            crop.put_pixel(x - self.left, y - self.top, c);
            img.put_pixel(x, y, erased_pixel());
            i = i + 1;
            proof {
                assert forall|a: int, b: int|
                    self.member_among_first(i as int, a, b) implies self.member_among_first(
                    ip,
                    a,
                    b,
                ) || (a == x as int && b == y as int) by {
                    let k = choose|k: int| 0 <= k < i as int && #[trigger] self.member_at(k, a, b);
                    if k < ip {
                        assert(self.member_among_first(ip, a, b));
                    }
                }
                assert forall|a: int, b: int|
                    orig_img.in_bounds(a, b) && self.member_among_first(i as int, a, b)
                        implies #[trigger] img.pixel_at(a, b) == erased_color() by {}
                assert forall|a: int, b: int|
                    orig_img.in_bounds(a, b) && !self.member_among_first(i as int, a, b)
                        implies #[trigger] img.pixel_at(a, b) == orig_img.pixel_at(a, b) by {
                    assert(!self.member_among_first(ip, a, b));
                    assert(!(a == x as int && b == y as int)) by {
                        if a == x as int && b == y as int {
                            assert(self.member_at(ip, a, b));
                            assert(self.member_among_first(i as int, a, b));
                        }
                    }
                }
                assert forall|a: int, b: int|
                    self.member_among_first(i as int, a, b) implies #[trigger] crop.pixel_at(
                    a - self.left,
                    b - self.top,
                ) == orig_img.pixel_at(a, b) by {
                    if a == x as int && b == y as int {
                    } else {
                        assert(self.member_among_first(ip, a, b));
                        let k = choose|k: int| 0 <= k < ip && #[trigger] self.member_at(k, a, b);
                        assert(self.in_box(self.pos_x(k), self.pos_y(k)));
                        assert(a - self.left != x as int - self.left || b - self.top != y as int
                            - self.top);
                    }
                }
                assert forall|u: int, v: int|
                    0 <= u < cw && 0 <= v < ch && !self.member_among_first(
                        i as int,
                        self.left + u,
                        self.top + v,
                    ) implies #[trigger] crop.pixel_at(u, v) == default_fill() by {
                    assert(!self.member_among_first(ip, self.left + u, self.top + v));
                    assert(!(u == x as int - self.left && v == y as int - self.top)) by {
                        if u == x as int - self.left && v == y as int - self.top {
                            assert(self.member_at(ip, self.left + u, self.top + v));
                            assert(self.member_among_first(i as int, self.left + u, self.top + v));
                        }
                    }
                }
            }
        }
        let ghost cimg: SourceImage = crop;
        self.image = crop;
        proof {
            lemma_same_members(*self, *old(self));
            assert(orig_img == *old(img));
            assert(self.image == cimg);
            assert forall|x: int, y: int| #[trigger] self.has_member(x, y) implies self.image.pixel_at(
                x - self.left,
                y - self.top,
            ) == old(img).pixel_at(x, y) by {
                assert(old(self).member_among_first(len as int, x, y));
                assert(cimg.pixel_at(x - old(self).left, y - old(self).top) == orig_img.pixel_at(
                    x,
                    y,
                ));
            }
            assert forall|u: int, v: int|
                0 <= u < self.image.width && 0 <= v < self.image.height && !self.has_member(
                    self.left + u,
                    self.top + v,
                ) implies #[trigger] self.image.pixel_at(u, v) == default_fill() by {
                assert(!old(self).member_among_first(len as int, old(self).left + u, old(self).top + v));
                assert(cimg.pixel_at(u, v) == default_fill());
            }
        }
    }
}

} // verus!
