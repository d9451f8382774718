use vstd::prelude::*;

use crate::grid::ImageInfo;
use crate::grid::count_unvisited;
use crate::grid::lemma_count_unvisited_update;
use crate::pixel::is_background_color;
use crate::pixel::is_background_spec;
use crate::pixel::erased_color;
use crate::region::ObjectInfo;
use crate::region::lemma_bbox_extend;
use crate::region::lemma_members_grow;
use crate::region::lemma_same_members;
use crate::source_image::SourceImage;
use crate::source_image::lemma_rowmajor_in_range;

verus! {

/// The pixel at (x, y) is an in-bounds foreground pixel of `img`.
pub open spec fn fg(img: SourceImage, x: int, y: int) -> bool {
    img.in_bounds(x, y) && !is_background_spec(img.pixel_at(x, y))
}

/// The two coordinates share an edge (4-connectivity).
pub open spec fn adjacent(x1: int, y1: int, x2: int, y2: int) -> bool {
    ||| x1 == x2 && (y2 == y1 + 1 || y1 == y2 + 1)
    ||| y1 == y2 && (x2 == x1 + 1 || x1 == x2 + 1)
}

/// The k-th step of `p` is a foreground pixel of `img`.
pub open spec fn path_fg_at(img: SourceImage, p: Seq<(int, int)>, k: int) -> bool {
    fg(img, p[k].0, p[k].1)
}

/// Steps k and k+1 of `p` are adjacent.
pub open spec fn path_adj_at(p: Seq<(int, int)>, k: int) -> bool {
    adjacent(p[k].0, p[k].1, p[k + 1].0, p[k + 1].1)
}

/// `p` is a 4-connected walk over foreground pixels of `img` leading from
/// (x1, y1) to (x2, y2).
pub open spec fn is_path(
    img: SourceImage,
    p: Seq<(int, int)>,
    x1: int,
    y1: int,
    x2: int,
    y2: int,
) -> bool {
    &&& p.len() > 0
    &&& p[0] == (x1, y1)
    &&& p[p.len() - 1] == (x2, y2)
    &&& forall|k: int| 0 <= k < p.len() ==> #[trigger] path_fg_at(img, p, k)
    &&& forall|k: int| 0 <= k < p.len() - 1 ==> #[trigger] path_adj_at(p, k)
}

/// (x2, y2) is reachable from (x1, y1) through 4-connected foreground
/// pixels. Reflexive and symmetric on the foreground.
pub open spec fn connected(img: SourceImage, x1: int, y1: int, x2: int, y2: int) -> bool {
    exists|p: Seq<(int, int)>| is_path(img, p, x1, y1, x2, y2)
}

/// A foreground pixel is connected to itself.
pub proof fn lemma_connected_refl(img: SourceImage, x: int, y: int)
    requires
        fg(img, x, y),
    ensures
        connected(img, x, y, x, y),
{
    let p: Seq<(int, int)> = seq![(x, y)];
    assert(path_fg_at(img, p, 0));
    assert(is_path(img, p, x, y, x, y));
}

/// Connectivity extends across one adjacent foreground pixel.
pub proof fn lemma_connected_step(
    img: SourceImage,
    x1: int,
    y1: int,
    x2: int,
    y2: int,
    x3: int,
    y3: int,
)
    requires
        connected(img, x1, y1, x2, y2),
        adjacent(x2, y2, x3, y3),
        fg(img, x3, y3),
    ensures
        connected(img, x1, y1, x3, y3),
{
    let p = choose|p: Seq<(int, int)>| is_path(img, p, x1, y1, x2, y2);
    let q = p.push((x3, y3));
    assert forall|k: int| 0 <= k < q.len() implies #[trigger] path_fg_at(img, q, k) by {
        if k < p.len() {
            assert(path_fg_at(img, p, k));
            assert(q[k] == p[k]);
        } else {
            assert(q[k] == (x3, y3));
        }
    }
    assert forall|k: int| 0 <= k < q.len() - 1 implies #[trigger] path_adj_at(q, k) by {
        if k < p.len() - 1 {
            assert(path_adj_at(p, k));
            assert(q[k] == p[k]);
            assert(q[k + 1] == p[k + 1]);
        } else {
            assert(q[k] == p[p.len() - 1]);
            assert(q[k + 1] == (x3, y3));
        }
    }
    assert(is_path(img, q, x1, y1, x3, y3));
}

/// If the pixel at (x, y) is foreground, it is visited.
pub open spec fn fg_visited(img: SourceImage, info: ImageInfo, x: int, y: int) -> bool {
    fg(img, x, y) ==> info.visited(x, y)
}

/// The visited pixels are closed under foreground adjacency: no unvisited
/// foreground pixel touches a visited one. The scan driver keeps this true
/// between flood fills, which is why each fill claims a whole component.
pub open spec fn visited_closed(img: SourceImage, info: ImageInfo) -> bool {
    forall|x: int, y: int|
        img.in_bounds(x, y) && #[trigger] info.visited(x, y) ==> fg_visited(img, info, x - 1, y)
            && fg_visited(img, info, x + 1, y) && fg_visited(img, info, x, y - 1) && fg_visited(
            img,
            info,
            x,
            y + 1,
        )
}

/// If the pixel at (x, y) is foreground, it is a member of `o` or was
/// already visited in `ov`.
pub open spec fn fg_claimed(img: SourceImage, ov: ImageInfo, o: ObjectInfo, x: int, y: int) -> bool {
    fg(img, x, y) ==> o.has_member(x, y) || ov.visited(x, y)
}

/// Every foreground pixel adjacent to a member of `o` is itself a member or
/// was visited before the fill started.
pub open spec fn members_closed(img: SourceImage, ov: ImageInfo, o: ObjectInfo) -> bool {
    forall|x: int, y: int|
        #[trigger] o.has_member(x, y) ==> fg_claimed(img, ov, o, x - 1, y) && fg_claimed(
            img,
            ov,
            o,
            x + 1,
            y,
        ) && fg_claimed(img, ov, o, x, y - 1) && fg_claimed(img, ov, o, x, y + 1)
}

/// Walks a foreground path: when the members of `o` contain the path's
/// start, avoid the previously visited pixels, and are closed under
/// foreground adjacency up to those pixels, which are closed themselves,
/// the members also contain the path's end.
proof fn lemma_path_stays_in_members(
    img: SourceImage,
    ov: ImageInfo,
    o: ObjectInfo,
    p: Seq<(int, int)>,
)
    requires
        p.len() > 0,
        forall|k: int| 0 <= k < p.len() ==> #[trigger] path_fg_at(img, p, k),
        forall|k: int| 0 <= k < p.len() - 1 ==> #[trigger] path_adj_at(p, k),
        o.has_member(p[0].0, p[0].1),
        forall|x: int, y: int| #[trigger] o.has_member(x, y) ==> !ov.visited(x, y),
        members_closed(img, ov, o),
        visited_closed(img, ov),
    ensures
        o.has_member(p[p.len() - 1].0, p[p.len() - 1].1),
    decreases p.len(),
{
    if p.len() > 1 {
        let q = p.drop_last();
        assert(q[0] == p[0]);
        assert forall|k: int| 0 <= k < q.len() implies #[trigger] path_fg_at(img, q, k) by {
            assert(path_fg_at(img, p, k));
            assert(q[k] == p[k]);
        }
        assert forall|k: int| 0 <= k < q.len() - 1 implies #[trigger] path_adj_at(q, k) by {
            assert(path_adj_at(p, k));
            assert(q[k] == p[k]);
            assert(q[k + 1] == p[k + 1]);
        }
        lemma_path_stays_in_members(img, ov, o, q);
        let mx = p[p.len() - 2].0;
        let my = p[p.len() - 2].1;
        let tx = p[p.len() - 1].0;
        let ty = p[p.len() - 1].1;
        assert(q[q.len() - 1] == p[p.len() - 2]);
        assert(o.has_member(mx, my));
        assert(path_adj_at(p, p.len() - 2));
        assert(path_fg_at(img, p, p.len() - 1));
        assert(path_fg_at(img, p, p.len() - 2));
        assert(adjacent(mx, my, tx, ty));
        assert(fg(img, tx, ty));
        if !o.has_member(tx, ty) {
            assert(ov.visited(tx, ty));
            assert(fg_visited(img, ov, mx, my));
            assert(ov.visited(mx, my));
            assert(false);
        }
    }
}

/// Entry j of the queue is the coordinate (x, y).
pub open spec fn queue_at(q: Seq<(usize, usize)>, j: int, x: int, y: int) -> bool {
    q[j].0 as int == x && q[j].1 as int == y
}

/// The queue holds the coordinate (x, y) somewhere.
pub open spec fn in_queue(q: Seq<(usize, usize)>, x: int, y: int) -> bool {
    exists|j: int| 0 <= j < q.len() && #[trigger] queue_at(q, j, x, y)
}

/// Member k of `o` is adjacent to (x, y).
pub open spec fn from_member(o: ObjectInfo, k: int, x: int, y: int) -> bool {
    0 <= k < o.pixel_positions@.len() && adjacent(o.pos_x(k), o.pos_y(k), x, y)
}

/// (x, y) is the seed or a neighbor of some member of `o`.
pub open spec fn entry_reachable(o: ObjectInfo, sx: int, sy: int, x: int, y: int) -> bool {
    (x == sx && y == sy) || exists|k: int| #[trigger] from_member(o, k, x, y)
}

/// Entry j of the queue is the seed or a neighbor of some member of `o`.
pub open spec fn entry_ok(q: Seq<(usize, usize)>, j: int, o: ObjectInfo, sx: int, sy: int) -> bool {
    entry_reachable(o, sx, sy, q[j].0 as int, q[j].1 as int)
}

/// A processed queue entry was out of bounds, background, or claimed: by an
/// earlier fill (`ov`) or by this one (`o`).
pub open spec fn processed_ok(
    img: SourceImage,
    q: Seq<(usize, usize)>,
    j: int,
    ov: ImageInfo,
    o: ObjectInfo,
) -> bool {
    ||| !img.in_bounds(q[j].0 as int, q[j].1 as int)
    ||| is_background_spec(img.pixel_at(q[j].0 as int, q[j].1 as int))
    ||| ov.visited(q[j].0 as int, q[j].1 as int)
    ||| o.has_member(q[j].0 as int, q[j].1 as int)
}

/// Every representable neighbor of member k has been enqueued.
pub open spec fn neighbors_enqueued(q: Seq<(usize, usize)>, o: ObjectInfo, k: int) -> bool {
    &&& (o.pos_x(k) > 0 ==> in_queue(q, o.pos_x(k) - 1, o.pos_y(k)))
    &&& in_queue(q, o.pos_x(k) + 1, o.pos_y(k))
    &&& (o.pos_y(k) > 0 ==> in_queue(q, o.pos_x(k), o.pos_y(k) - 1))
    &&& in_queue(q, o.pos_x(k), o.pos_y(k) + 1)
}

/// Queue entries persist when the queue grows at the end.
pub proof fn lemma_in_queue_extend(q1: Seq<(usize, usize)>, q2: Seq<(usize, usize)>)
    requires
        q1.len() <= q2.len(),
        forall|j: int| 0 <= j < q1.len() ==> #[trigger] q2[j] == q1[j],
    ensures
        forall|x: int, y: int| #[trigger] in_queue(q1, x, y) ==> in_queue(q2, x, y),
{
    assert forall|x: int, y: int| #[trigger] in_queue(q1, x, y) implies in_queue(q2, x, y) by {
        let j = choose|j: int| 0 <= j < q1.len() && #[trigger] queue_at(q1, j, x, y);
        assert(queue_at(q2, j, x, y));
    }
}

/// An enqueued coordinate that turned out foreground was claimed, once the
/// whole queue has been processed.
proof fn lemma_enqueued_neighbor_claimed(
    img: SourceImage,
    q: Seq<(usize, usize)>,
    ov: ImageInfo,
    o: ObjectInfo,
    nx: int,
    ny: int,
)
    requires
        in_queue(q, nx, ny),
        forall|j: int| 0 <= j < q.len() ==> #[trigger] processed_ok(img, q, j, ov, o),
    ensures
        fg(img, nx, ny) ==> o.has_member(nx, ny) || ov.visited(nx, ny),
{
    if fg(img, nx, ny) {
        let j = choose|j: int| 0 <= j < q.len() && #[trigger] queue_at(q, j, nx, ny);
        assert(processed_ok(img, q, j, ov, o));
    }
}

/// The scan-phase facts about one detected object, before extraction:
/// nonempty, duplicate-free, in-bounds foreground members under a tight
/// bounding box, and membership exactly the 4-connected component of the
/// first (seed) member.
pub open spec fn region_scan_ok(orig: SourceImage, o: ObjectInfo) -> bool {
    &&& o.pixel_positions@.len() > 0
    &&& o.members_distinct()
    &&& o.bbox_tight()
    &&& o.members_in_bounds(orig.width as int, orig.height as int)
    &&& forall|x: int, y: int| #[trigger] o.has_member(x, y) ==> fg(orig, x, y)
    &&& forall|x: int, y: int|
        #[trigger] o.has_member(x, y) ==> connected(orig, o.pos_x(0), o.pos_y(0), x, y)
    &&& forall|x: int, y: int|
        #[trigger] connected(orig, o.pos_x(0), o.pos_y(0), x, y) ==> o.has_member(x, y)
}

/// One detected object is sound for the original image `orig`: the scan
/// facts hold and its image is the correct tight crop.
pub open spec fn region_ok(orig: SourceImage, o: ObjectInfo) -> bool {
    region_scan_ok(orig, o) && o.crop_ok(orig)
}

/// (x, y) belongs to one of the first n objects.
pub open spec fn member_of_any_first(objects: Seq<ObjectInfo>, n: int, x: int, y: int) -> bool {
    exists|i: int| 0 <= i < n && #[trigger] objects[i].has_member(x, y)
}

/// (x, y) belongs to one of the objects.
pub open spec fn member_of_any(objects: Seq<ObjectInfo>, x: int, y: int) -> bool {
    member_of_any_first(objects, objects.len() as int, x, y)
}

/// The full contract of one object-finding pass over an image: `orig` is
/// the image as handed in, `erased` as handed back, `objects` the detected
/// objects in discovery order.
pub open spec fn scan_result_ok(
    orig: SourceImage,
    erased: SourceImage,
    objects: Seq<ObjectInfo>,
) -> bool {
    &&& erased.wf()
    &&& erased.width == orig.width
    &&& erased.height == orig.height
    &&& forall|i: int| 0 <= i < objects.len() ==> region_ok(orig, #[trigger] objects[i])
    &&& forall|i: int, j: int, x: int, y: int|
        0 <= i < j < objects.len() && #[trigger] objects[i].has_member(x, y) ==> !(
        #[trigger] objects[j].has_member(x, y))
    &&& forall|x: int, y: int| #[trigger] fg(orig, x, y) ==> member_of_any(objects, x, y)
    &&& forall|x: int, y: int|
        orig.in_bounds(x, y) && member_of_any(objects, x, y) ==> #[trigger] erased.pixel_at(x, y)
            == erased_color()
    &&& forall|x: int, y: int|
        orig.in_bounds(x, y) && !member_of_any(objects, x, y) ==> #[trigger] erased.pixel_at(x, y)
            == orig.pixel_at(x, y)
}

/// Two objects with the same member list and bounding box satisfy the same
/// scan-phase facts.
proof fn lemma_region_scan_ok_transfer(orig: SourceImage, a: ObjectInfo, b: ObjectInfo)
    requires
        region_scan_ok(orig, a),
        b.pixel_positions@ == a.pixel_positions@,
        b.left == a.left,
        b.top == a.top,
        b.right == a.right,
        b.bottom == a.bottom,
    ensures
        region_scan_ok(orig, b),
{
    lemma_same_members(a, b);
    let len = a.pixel_positions@.len() as int;
    assert forall|k: int| 0 <= k < len implies #[trigger] b.pos_x(k) == a.pos_x(k) && b.pos_y(k)
        == a.pos_y(k) by {}
    assert forall|k: int| 0 <= k < len implies b.in_box(#[trigger] b.pos_x(k), b.pos_y(k)) by {
        assert(a.in_box(a.pos_x(k), a.pos_y(k)));
    }
    let kl = choose|k: int| 0 <= k < len && #[trigger] a.pos_x(k) == a.left as int;
    assert(b.pos_x(kl) == b.left as int);
    let kr = choose|k: int| 0 <= k < len && #[trigger] a.pos_x(k) == a.right as int;
    assert(b.pos_x(kr) == b.right as int);
    let kt = choose|k: int| 0 <= k < len && #[trigger] a.pos_y(k) == a.top as int;
    assert(b.pos_y(kt) == b.top as int);
    let kb = choose|k: int| 0 <= k < len && #[trigger] a.pos_y(k) == a.bottom as int;
    assert(b.pos_y(kb) == b.bottom as int);
    assert(b.bbox_tight());
    assert forall|x: int, y: int| #[trigger] b.has_member(x, y) implies fg(orig, x, y) && connected(
        orig,
        b.pos_x(0),
        b.pos_y(0),
        x,
        y,
    ) by {
        assert(a.has_member(x, y));
    }
    assert forall|x: int, y: int| #[trigger] connected(orig, b.pos_x(0), b.pos_y(0), x, y) implies b.has_member(
        x,
        y,
    ) by {
        assert(connected(orig, a.pos_x(0), a.pos_y(0), x, y));
        assert(a.has_member(x, y));
    }
}

/// Searches images for contiguous foreground objects.
pub struct ImageSearch;

impl ImageSearch {
    /// Claims the entire 4-connected foreground component of the seed pixel:
    /// a breadth-first flood fill that marks each claimed pixel visited and
    /// records it in the returned object, whose bounding box ends up tight.
    /// The members are exactly the pixels connected to the seed.
    #[verifier::loop_isolation(false)]
    #[verifier::rlimit(60)]
    pub fn find_entire_object(
        img: &SourceImage,
        info: &mut ImageInfo,
        start_x: usize,
        start_y: usize,
    ) -> (object: ObjectInfo)
        requires
            img.wf(),
            old(info).wf(),
            old(info).width == img.width,
            old(info).height == img.height,
            fg(*img, start_x as int, start_y as int),
            !old(info).visited(start_x as int, start_y as int),
            visited_closed(*img, *old(info)),
        ensures
            final(info).wf(),
            final(info).width == img.width,
            final(info).height == img.height,
            forall|x: int, y: int|
                img.in_bounds(x, y) && old(info).visited(x, y) ==> #[trigger] final(info).visited(
                    x,
                    y,
                ),
            forall|x: int, y: int|
                img.in_bounds(x, y) && #[trigger] final(info).visited(x, y) ==> old(info).visited(
                    x,
                    y,
                ) || object.has_member(x, y),
            visited_closed(*img, *final(info)),
            object.pixel_positions@.len() > 0,
            object.pixel_positions@[0] == (start_x, start_y),
            object.members_distinct(),
            object.bbox_tight(),
            object.members_in_bounds(img.width as int, img.height as int),
            forall|x: int, y: int|
                #[trigger] object.has_member(x, y) ==> fg(*img, x, y) && !old(info).visited(x, y)
                    && final(info).visited(x, y),
            forall|x: int, y: int|
                #[trigger] object.has_member(x, y) ==> connected(
                    *img,
                    start_x as int,
                    start_y as int,
                    x,
                    y,
                ),
            forall|x: int, y: int|
                #[trigger] connected(*img, start_x as int, start_y as int, x, y)
                    ==> object.has_member(x, y),
    {
        let ghost img_v: SourceImage = *img;
        let ghost sx: int = start_x as int;
        let ghost sy: int = start_y as int;
        let mut object = ObjectInfo::new(start_x, start_y);
        let mut queue: Vec<(usize, usize)> = Vec::new();
        queue.push((start_x, start_y));
        let mut head: usize = 0;
        proof {
            assert(queue_at(queue@, 0, sx, sy));
            assert(entry_ok(queue@, 0, object, sx, sy));
        }
        while head < queue.len()
            invariant
                info.wf(),
                info.width == img.width,
                info.height == img.height,
                head <= queue@.len(),
                forall|x: int, y: int|
                    img.in_bounds(x, y) && old(info).visited(x, y) ==> #[trigger] info.visited(
                        x,
                        y,
                    ),
                forall|x: int, y: int|
                    img.in_bounds(x, y) && object.has_member(x, y) ==> #[trigger] info.visited(
                        x,
                        y,
                    ),
                forall|x: int, y: int|
                    img.in_bounds(x, y) && #[trigger] info.visited(x, y) ==> old(info).visited(
                        x,
                        y,
                    ) || object.has_member(x, y),
                forall|k: int|
                    0 <= k < object.pixel_positions@.len() ==> fg(
                        img_v,
                        #[trigger] object.pos_x(k),
                        object.pos_y(k),
                    ) && !old(info).visited(object.pos_x(k), object.pos_y(k)) && connected(
                        img_v,
                        sx,
                        sy,
                        object.pos_x(k),
                        object.pos_y(k),
                    ),
                object.members_distinct(),
                head == 0 ==> object.pixel_positions@.len() == 0 && queue@.len() == 1 && queue_at(
                    queue@,
                    0,
                    sx,
                    sy,
                ),
                head > 0 ==> object.pixel_positions@.len() > 0 && object.member_at(0, sx, sy),
                object.pixel_positions@.len() == 0 ==> object.left == start_x && object.right
                    == start_x && object.top == start_y && object.bottom == start_y,
                object.pixel_positions@.len() > 0 ==> object.bbox_tight(),
                forall|j: int|
                    0 <= j < queue@.len() ==> #[trigger] entry_ok(queue@, j, object, sx, sy),
                forall|j: int|
                    0 <= j < head ==> #[trigger] processed_ok(
                        img_v,
                        queue@,
                        j,
                        *old(info),
                        object,
                    ),
                forall|k: int|
                    0 <= k < object.pixel_positions@.len() ==> #[trigger] neighbors_enqueued(
                        queue@,
                        object,
                        k,
                    ),
            decreases count_unvisited(info.pixels@), queue@.len() - head,
        {
            let ghost q0 = queue@;
            let ghost obj0 = object;
            let ghost info0 = *info;
            let ghost h0 = head as int;
            let pos: (usize, usize) = queue[head];
            let x: usize = pos.0;
            let y: usize = pos.1;
            head = head + 1;
            if x < img.width && y < img.height && !info.pixel(x, y).was_checked
                && !is_background_color(img.get_pixel(x, y)) {
                let ghost n0 = obj0.pixel_positions@.len() as int;
                proof {
                    lemma_rowmajor_in_range(
                        info.width as int,
                        info.height as int,
                        x as int,
                        y as int,
                    );
                    assert(!obj0.has_member(x as int, y as int));
                    lemma_count_unvisited_update(
                        info0.pixels@,
                        y as int * info0.width + x as int,
                    );
                }
                info.set_visited(x, y);
                object.add_pixel_position(x, y);
                let ghost base: int = q0.len() as int;
                if x > 0 {
                    queue.push((x - 1, y));
                }
                queue.push((x + 1, y));
                if y > 0 {
                    queue.push((x, y - 1));
                }
                queue.push((x, y + 1));
                proof {
                    let qf = queue@;
                    let objn = object;
                    assert(objn.pixel_positions@ == obj0.pixel_positions@.push((x, y)));
                    assert(objn.pos_x(n0) == x as int && objn.pos_y(n0) == y as int);
                    assert(objn.member_at(n0, x as int, y as int));
                    lemma_members_grow(obj0, objn);
                    lemma_bbox_extend(obj0, objn, x, y);
                    assert forall|j: int| 0 <= j < q0.len() implies qf[j] == q0[j] by {}
                    lemma_in_queue_extend(q0, qf);
                    // the freshly pushed neighbor entries
                    let bl: int = base;
                    let br: int = base + (if x > 0 { 1int } else { 0int });
                    let bu: int = br + 1;
                    let bd: int = bu + (if y > 0 { 1int } else { 0int });
                    if x > 0 {
                        assert(queue_at(qf, bl, x as int - 1, y as int));
                    }
                    assert(queue_at(qf, br, x as int + 1, y as int));
                    if y > 0 {
                        assert(queue_at(qf, bu, x as int, y as int - 1));
                    }
                    assert(queue_at(qf, bd, x as int, y as int + 1));
                    assert(neighbors_enqueued(qf, objn, n0));
                    // membership in the grid
                    assert(fg(img_v, x as int, y as int));
                    assert(!info0.visited(x as int, y as int));
                    assert(!old(info).visited(x as int, y as int));
                    // connectivity of the new member
                    assert(entry_ok(q0, h0, obj0, sx, sy));
                    if x as int == sx && y as int == sy {
                        lemma_connected_refl(img_v, sx, sy);
                    } else {
                        let k2 = choose|k2: int| #[trigger] from_member(obj0, k2, x as int, y as int);
                        assert(fg(img_v, obj0.pos_x(k2), obj0.pos_y(k2)));
                        lemma_connected_step(
                            img_v,
                            sx,
                            sy,
                            obj0.pos_x(k2),
                            obj0.pos_y(k2),
                            x as int,
                            y as int,
                        );
                    }
                    assert(connected(img_v, sx, sy, x as int, y as int));
                    // member facts carry over to the extended object
                    assert forall|k: int| 0 <= k < objn.pixel_positions@.len() implies fg(
                        img_v,
                        #[trigger] objn.pos_x(k),
                        objn.pos_y(k),
                    ) && !old(info).visited(objn.pos_x(k), objn.pos_y(k)) && connected(
                        img_v,
                        sx,
                        sy,
                        objn.pos_x(k),
                        objn.pos_y(k),
                    ) by {
                        if k < n0 {
                            assert(objn.pos_x(k) == obj0.pos_x(k));
                            assert(objn.pos_y(k) == obj0.pos_y(k));
                            assert(fg(img_v, obj0.pos_x(k), obj0.pos_y(k)));
                        }
                    }
                    // distinctness
                    assert forall|i: int, j: int|
                        0 <= i < j < objn.pixel_positions@.len() implies #[trigger] objn.pixel_positions@[i]
                        != #[trigger] objn.pixel_positions@[j] by {
                        if j < n0 {
                            assert(obj0.pixel_positions@[i] != obj0.pixel_positions@[j]);
                        } else {
                            if objn.pixel_positions@[i] == objn.pixel_positions@[j] {
                                assert(obj0.member_at(i, x as int, y as int));
                                assert(obj0.has_member(x as int, y as int));
                                assert(false);
                            }
                        }
                    }
                    // first member is the seed
                    if h0 == 0 {
                        assert(queue_at(q0, 0, sx, sy));
                        assert(x as int == sx && y as int == sy);
                        assert(objn.member_at(0, sx, sy));
                    } else {
                        assert(obj0.member_at(0, sx, sy));
                        assert(objn.member_at(0, sx, sy));
                    }
                    // visited set tracks membership
                    assert forall|a: int, b: int|
                        img.in_bounds(a, b) && objn.has_member(a, b) implies #[trigger] info.visited(
                        a,
                        b,
                    ) by {
                        let k = choose|k: int|
                            0 <= k < objn.pixel_positions@.len() && #[trigger] objn.member_at(
                                k,
                                a,
                                b,
                            );
                        if k < n0 {
                            assert(obj0.member_at(k, a, b));
                            assert(obj0.has_member(a, b));
                            assert(info0.visited(a, b));
                        }
                    }
                    assert forall|a: int, b: int|
                        img.in_bounds(a, b) && #[trigger] info.visited(a, b) implies old(
                        info,
                    ).visited(a, b) || objn.has_member(a, b) by {
                        if a == x as int && b == y as int {
                            assert(objn.has_member(a, b));
                        } else {
                            assert(info.visited(a, b) == info0.visited(a, b));
                        }
                    }
                    // every queue entry still stems from the seed or a member
                    assert forall|j: int| 0 <= j < qf.len() implies #[trigger] entry_ok(
                        qf,
                        j,
                        objn,
                        sx,
                        sy,
                    ) by {
                        if j < q0.len() {
                            assert(entry_ok(q0, j, obj0, sx, sy));
                            if !(qf[j].0 as int == sx && qf[j].1 as int == sy) {
                                let k = choose|k: int|
                                    #[trigger] from_member(obj0, k, q0[j].0 as int, q0[j].1 as int);
                                assert(from_member(objn, k, qf[j].0 as int, qf[j].1 as int));
                            }
                        } else {
                            assert(from_member(objn, n0, qf[j].0 as int, qf[j].1 as int));
                        }
                    }
                    // all processed entries remain accounted for
                    assert forall|j: int| 0 <= j < head implies #[trigger] processed_ok(
                        img_v,
                        qf,
                        j,
                        *old(info),
                        objn,
                    ) by {
                        if j < h0 {
                            assert(processed_ok(img_v, q0, j, *old(info), obj0));
                        } else {
                            assert(objn.has_member(x as int, y as int));
                        }
                    }
                    // neighbor coverage for old members
                    assert forall|k: int|
                        0 <= k < objn.pixel_positions@.len() implies #[trigger] neighbors_enqueued(
                        qf,
                        objn,
                        k,
                    ) by {
                        if k < n0 {
                            assert(neighbors_enqueued(q0, obj0, k));
                            assert(objn.pos_x(k) == obj0.pos_x(k));
                            assert(objn.pos_y(k) == obj0.pos_y(k));
                        }
                    }
                }
            } else {
                proof {
                    if h0 == 0 {
                        assert(queue_at(q0, 0, sx, sy));
                        assert(x as int == sx && y as int == sy);
                        assert(img_v.in_bounds(sx, sy));
                        assert(!is_background_spec(img_v.pixel_at(sx, sy)));
                        assert(!info0.visited(sx, sy));
                        assert(false);
                    }
                    assert forall|j: int| 0 <= j < head implies #[trigger] processed_ok(
                        img_v,
                        queue@,
                        j,
                        *old(info),
                        object,
                    ) by {
                        if j < h0 {
                            assert(processed_ok(img_v, q0, j, *old(info), object));
                        } else {
                            assert(queue_at(q0, h0, x as int, y as int));
                            if img_v.in_bounds(x as int, y as int) {
                                if !is_background_spec(img_v.pixel_at(x as int, y as int)) {
                                    assert(info0.visited(x as int, y as int));
                                }
                            }
                        }
                    }
                }
            }
        }
        proof {
            // the queue has been fully processed, so the members are closed
            assert(head == queue@.len());
            assert(object.pixel_positions@.len() > 0);
            assert(object.pixel_positions@[0].0 == start_x && object.pixel_positions@[0].1
                == start_y);
            assert(object.pixel_positions@[0] == (start_x, start_y));
            assert forall|k: int| 0 <= k < object.pixel_positions@.len() implies #[trigger] object.pos_x(
                k,
            ) < img.width as int && object.pos_y(k) < img.height as int by {
                assert(fg(img_v, object.pos_x(k), object.pos_y(k)));
            }
            assert forall|x: int, y: int| #[trigger] object.has_member(x, y) implies fg(img_v, x, y)
                && !old(info).visited(x, y) && info.visited(x, y) && connected(
                img_v,
                sx,
                sy,
                x,
                y,
            ) by {
                let k = choose|k: int|
                    0 <= k < object.pixel_positions@.len() && #[trigger] object.member_at(k, x, y);
                assert(fg(img_v, object.pos_x(k), object.pos_y(k)));
            }
            assert(members_closed(img_v, *old(info), object)) by {
                assert forall|a: int, b: int| #[trigger] object.has_member(a, b) implies fg_claimed(
                    img_v,
                    *old(info),
                    object,
                    a - 1,
                    b,
                ) && fg_claimed(img_v, *old(info), object, a + 1, b) && fg_claimed(
                    img_v,
                    *old(info),
                    object,
                    a,
                    b - 1,
                ) && fg_claimed(img_v, *old(info), object, a, b + 1) by {
                    let k = choose|k: int|
                        0 <= k < object.pixel_positions@.len() && #[trigger] object.member_at(
                            k,
                            a,
                            b,
                        );
                    assert(neighbors_enqueued(queue@, object, k));
                    assert(object.pos_x(k) == a && object.pos_y(k) == b);
                    if a > 0 {
                        lemma_enqueued_neighbor_claimed(
                            img_v,
                            queue@,
                            *old(info),
                            object,
                            a - 1,
                            b,
                        );
                    } else {
                        assert(!img_v.in_bounds(a - 1, b));
                    }
                    lemma_enqueued_neighbor_claimed(img_v, queue@, *old(info), object, a + 1, b);
                    if b > 0 {
                        lemma_enqueued_neighbor_claimed(
                            img_v,
                            queue@,
                            *old(info),
                            object,
                            a,
                            b - 1,
                        );
                    } else {
                        assert(!img_v.in_bounds(a, b - 1));
                    }
                    lemma_enqueued_neighbor_claimed(img_v, queue@, *old(info), object, a, b + 1);
                }
            }
            assert(object.has_member(sx, sy)) by {
                assert(object.member_at(0, sx, sy));
            }
            assert forall|x: int, y: int| #[trigger] connected(img_v, sx, sy, x, y) implies object.has_member(
                x,
                y,
            ) by {
                let p = choose|p: Seq<(int, int)>| is_path(img_v, p, sx, sy, x, y);
                assert(p[0] == (sx, sy));
                lemma_path_stays_in_members(img_v, *old(info), object, p);
                assert(p[p.len() - 1] == (x, y));
            }
            // the enlarged visited set is still closed
            assert forall|a: int, b: int|
                img_v.in_bounds(a, b) && #[trigger] info.visited(a, b) implies fg_visited(
                img_v,
                *info,
                a - 1,
                b,
            ) && fg_visited(img_v, *info, a + 1, b) && fg_visited(img_v, *info, a, b - 1)
                && fg_visited(img_v, *info, a, b + 1) by {
                if old(info).visited(a, b) {
                    assert(fg_visited(img_v, *old(info), a - 1, b));
                    assert(fg_visited(img_v, *old(info), a + 1, b));
                    assert(fg_visited(img_v, *old(info), a, b - 1));
                    assert(fg_visited(img_v, *old(info), a, b + 1));
                } else {
                    assert(object.has_member(a, b));
                    assert(fg_claimed(img_v, *old(info), object, a - 1, b));
                    assert(fg_claimed(img_v, *old(info), object, a + 1, b));
                    assert(fg_claimed(img_v, *old(info), object, a, b - 1));
                    assert(fg_claimed(img_v, *old(info), object, a, b + 1));
                }
            }
        }
        object
    }

    /// Finds every discrete foreground object of the image: scans all pixels
    /// in row-major order, claims each still-unclaimed foreground pixel's
    /// whole 4-connected component as one object, then materializes every
    /// object in discovery order, cropping it out and erasing its pixels to
    /// opaque white. The returned objects partition the foreground; all
    /// other pixels keep their value.
    #[verifier::loop_isolation(false)]
    #[verifier::rlimit(60)]
    pub fn find_objects(&self, img: &mut SourceImage) -> (objects: Vec<ObjectInfo>)
        requires
            old(img).wf(),
        ensures
            final(img).wf(),
            final(img).width == old(img).width,
            final(img).height == old(img).height,
            scan_result_ok(*old(img), *final(img), objects@),
    {
        let ghost orig: SourceImage = *img;
        let width: usize = img.width;
        let height: usize = img.height;
        let n: usize = img.data.len();
        proof {
            crate::source_image::lemma_mul_mono(0, 0, width as int, height as int);
        }
        let mut info = ImageInfo::new(width, height);
        let mut found: Vec<ObjectInfo> = Vec::new();
        let mut y: usize = 0;
        while y < height
            invariant
                y <= height,
                *img == orig,
                info.wf(),
                info.width == width,
                info.height == height,
                visited_closed(orig, info),
                forall|a: int, b: int|
                    orig.in_bounds(a, b) && #[trigger] info.visited(a, b) ==> member_of_any(
                        found@,
                        a,
                        b,
                    ),
                forall|a: int, b: int|
                    orig.in_bounds(a, b) && member_of_any(found@, a, b) ==> #[trigger] info.visited(
                        a,
                        b,
                    ),
                forall|a: int, b: int|
                    fg(orig, a, b) && b < y ==> #[trigger] info.visited(a, b),
                forall|i: int|
                    0 <= i < found@.len() ==> region_scan_ok(orig, #[trigger] found@[i]),
                forall|i: int, j: int, x2: int, y2: int|
                    0 <= i < j < found@.len() && #[trigger] found@[i].has_member(x2, y2) ==> !(
                    #[trigger] found@[j].has_member(x2, y2)),
            decreases height - y,
        {
            let mut x: usize = 0;
            while x < width
                invariant
                    x <= width,
                    y < height,
                    *img == orig,
                    info.wf(),
                    info.width == width,
                    info.height == height,
                    visited_closed(orig, info),
                    forall|a: int, b: int|
                        orig.in_bounds(a, b) && #[trigger] info.visited(a, b) ==> member_of_any(
                            found@,
                            a,
                            b,
                        ),
                    forall|a: int, b: int|
                        orig.in_bounds(a, b) && member_of_any(found@, a, b)
                            ==> #[trigger] info.visited(a, b),
                    forall|a: int, b: int|
                        fg(orig, a, b) && (b < y || (b == y && a < x)) ==> #[trigger] info.visited(
                            a,
                            b,
                        ),
                    forall|i: int|
                        0 <= i < found@.len() ==> region_scan_ok(orig, #[trigger] found@[i]),
                    forall|i: int, j: int, x2: int, y2: int|
                        0 <= i < j < found@.len() && #[trigger] found@[i].has_member(x2, y2) ==> !(
                        #[trigger] found@[j].has_member(x2, y2)),
                decreases width - x,
            {
                if !info.pixel(x, y).was_checked && !is_background_color(img.get_pixel(x, y)) {
                    let ghost found0 = found@;
                    let ghost info0 = info;
                    let object = ImageSearch::find_entire_object(img, &mut info, x, y);
                    found.push(object);
                    proof {
                        let m = found0.len() as int;
                        assert(found@[m] == object);
                        assert forall|i: int| 0 <= i < m implies found@[i] == found0[i] by {}
                        assert(object.member_at(0, x as int, y as int));
                        assert(object.has_member(x as int, y as int));
                        assert(object.pos_x(0) == x as int && object.pos_y(0) == y as int);
                        assert(region_scan_ok(orig, object));
                        // visited tracks membership over the grown list
                        assert forall|a: int, b: int|
                            orig.in_bounds(a, b) && #[trigger] info.visited(a, b) implies member_of_any(
                            found@,
                            a,
                            b,
                        ) by {
                            if info0.visited(a, b) {
                                let i = choose|i: int|
                                    0 <= i < found0.len() && #[trigger] found0[i].has_member(a, b);
                                assert(found@[i].has_member(a, b));
                            } else {
                                assert(object.has_member(a, b));
                                assert(found@[m].has_member(a, b));
                            }
                        }
                        assert forall|a: int, b: int|
                            orig.in_bounds(a, b) && member_of_any(found@, a, b)
                                implies #[trigger] info.visited(a, b) by {
                            let i = choose|i: int|
                                0 <= i < found@.len() && #[trigger] found@[i].has_member(a, b);
                            if i < m {
                                assert(found0[i].has_member(a, b));
                                assert(info0.visited(a, b));
                            }
                        }
                        // disjointness with all earlier objects
                        assert forall|i: int, j: int, x2: int, y2: int|
                            0 <= i < j < found@.len() && #[trigger] found@[i].has_member(x2, y2)
                                implies !(#[trigger] found@[j].has_member(x2, y2)) by {
                            if j == m {
                                if found@[j].has_member(x2, y2) {
                                    assert(object.has_member(x2, y2));
                                    assert(!info0.visited(x2, y2));
                                    assert(found0[i].has_member(x2, y2));
                                    assert(fg(orig, x2, y2));
                                    assert(info0.visited(x2, y2));
                                }
                            } else {
                                assert(found0[i].has_member(x2, y2) ==> !found0[j].has_member(
                                    x2,
                                    y2,
                                ));
                            }
                        }
                    }
                }
                x = x + 1;
            }
            y = y + 1;
        }
        proof {
            assert forall|a: int, b: int| #[trigger] fg(orig, a, b) implies member_of_any(
                found@,
                a,
                b,
            ) by {
                assert(info.visited(a, b));
            }
        }
        // materialize each object: crop it out and erase its pixels
        let ghost scanned: Seq<ObjectInfo> = found@;
        let mut remaining = found;
        let mut objects: Vec<ObjectInfo> = Vec::new();
        while remaining.len() > 0
            invariant
                objects@.len() + remaining@.len() == scanned.len(),
                forall|i: int|
                    0 <= i < remaining@.len() ==> #[trigger] remaining@[i] == scanned[objects@.len()
                        + i],
                img.wf(),
                img.width == orig.width,
                img.height == orig.height,
                forall|i: int|
                    0 <= i < objects@.len() ==> (#[trigger] objects@[i]).pixel_positions@
                        == scanned[i].pixel_positions@ && objects@[i].left == scanned[i].left
                        && objects@[i].top == scanned[i].top && objects@[i].right
                        == scanned[i].right && objects@[i].bottom == scanned[i].bottom
                        && objects@[i].crop_ok(orig),
                forall|a: int, b: int|
                    orig.in_bounds(a, b) && member_of_any_first(scanned, objects@.len() as int, a, b)
                        ==> #[trigger] img.pixel_at(a, b) == erased_color(),
                forall|a: int, b: int|
                    orig.in_bounds(a, b) && !member_of_any_first(
                        scanned,
                        objects@.len() as int,
                        a,
                        b,
                    ) ==> #[trigger] img.pixel_at(a, b) == orig.pixel_at(a, b),
            decreases remaining@.len(),
        {
            let ghost k = objects@.len() as int;
            let mut object = remaining.remove(0);
            proof {
                assert(object == scanned[k]);
                assert(region_scan_ok(orig, scanned[k]));
                assert(object.members_in_bounds(img.width as int, img.height as int));
            }
            let ghost img1 = *img;
            object.take_pixels_from_image(img);
            proof {
                lemma_same_members(object, scanned[k]);
                // no pixel of this object was touched by an earlier object
                assert forall|a: int, b: int| #[trigger] scanned[k].has_member(a, b) implies !member_of_any_first(
                    scanned,
                    k,
                    a,
                    b,
                ) && img1.pixel_at(a, b) == orig.pixel_at(a, b) by {
                    assert(fg(orig, a, b));
                    if member_of_any_first(scanned, k, a, b) {
                        let i = choose|i: int|
                            0 <= i < k && #[trigger] scanned[i].has_member(a, b);
                        assert(!scanned[k].has_member(a, b));
                    }
                }
                // so the crop shows the original pixels
                assert forall|a: int, b: int| #[trigger] object.has_member(a, b) implies object.image.pixel_at(
                    a - object.left,
                    b - object.top,
                ) == orig.pixel_at(a, b) by {
                    assert(scanned[k].has_member(a, b));
                    assert(fg(orig, a, b));
                    assert(object.image.pixel_at(a - object.left, b - object.top) == img1.pixel_at(
                        a,
                        b,
                    ));
                }
                assert(object.crop_ok(orig));
                // erasure bookkeeping over the first k + 1 objects
                assert forall|a: int, b: int|
                    orig.in_bounds(a, b) && member_of_any_first(scanned, k + 1, a, b)
                        implies #[trigger] img.pixel_at(a, b) == erased_color() by {
                    let i = choose|i: int|
                        0 <= i < k + 1 && #[trigger] scanned[i].has_member(a, b);
                    if i < k {
                        assert(img1.pixel_at(a, b) == erased_color());
                        assert(!scanned[k].has_member(a, b)) by {
                            if scanned[k].has_member(a, b) {
                                assert(!member_of_any_first(scanned, k, a, b));
                            }
                        }
                        assert(!object.has_member(a, b));
                    } else {
                        assert(object.has_member(a, b));
                    }
                }
                assert forall|a: int, b: int|
                    orig.in_bounds(a, b) && !member_of_any_first(scanned, k + 1, a, b)
                        implies #[trigger] img.pixel_at(a, b) == orig.pixel_at(a, b) by {
                    assert(!member_of_any_first(scanned, k, a, b)) by {
                        if member_of_any_first(scanned, k, a, b) {
                            let i = choose|i: int|
                                0 <= i < k && #[trigger] scanned[i].has_member(a, b);
                            assert(member_of_any_first(scanned, k + 1, a, b));
                        }
                    }
                    assert(!object.has_member(a, b)) by {
                        if object.has_member(a, b) {
                            assert(scanned[k].has_member(a, b));
                            assert(member_of_any_first(scanned, k + 1, a, b));
                        }
                    }
                }
            }
            objects.push(object);
            proof {
                assert forall|i: int| 0 <= i < objects@.len() - 1 implies #[trigger] objects@[i]
                    == objects@.subrange(0, objects@.len() - 1)[i] by {}
            }
        }
        proof {
            assert(objects@.len() == scanned.len());
            assert forall|i: int| 0 <= i < objects@.len() implies region_ok(
                orig,
                #[trigger] objects@[i],
            ) by {
                lemma_region_scan_ok_transfer(orig, scanned[i], objects@[i]);
            }
            assert forall|i: int, j: int, x2: int, y2: int|
                0 <= i < j < objects@.len() && #[trigger] objects@[i].has_member(x2, y2)
                    implies !(#[trigger] objects@[j].has_member(x2, y2)) by {
                lemma_same_members(scanned[i], objects@[i]);
                lemma_same_members(scanned[j], objects@[j]);
                assert(scanned[i].has_member(x2, y2));
            }
            assert forall|x2: int, y2: int| #[trigger] fg(orig, x2, y2) implies member_of_any(
                objects@,
                x2,
                y2,
            ) by {
                let i = choose|i: int|
                    0 <= i < scanned.len() && #[trigger] scanned[i].has_member(x2, y2);
                lemma_same_members(scanned[i], objects@[i]);
                assert(objects@[i].has_member(x2, y2));
            }
            assert forall|a: int, b: int|
                orig.in_bounds(a, b) && member_of_any(objects@, a, b) implies #[trigger] img.pixel_at(
                a,
                b,
            ) == erased_color() by {
                let i = choose|i: int|
                    0 <= i < objects@.len() && #[trigger] objects@[i].has_member(a, b);
                lemma_same_members(scanned[i], objects@[i]);
                assert(scanned[i].has_member(a, b));
                assert(member_of_any_first(scanned, scanned.len() as int, a, b));
            }
            assert forall|a: int, b: int|
                orig.in_bounds(a, b) && !member_of_any(objects@, a, b) implies #[trigger] img.pixel_at(
                a,
                b,
            ) == orig.pixel_at(a, b) by {
                assert(!member_of_any_first(scanned, scanned.len() as int, a, b)) by {
                    if member_of_any_first(scanned, scanned.len() as int, a, b) {
                        let i = choose|i: int|
                            0 <= i < scanned.len() && #[trigger] scanned[i].has_member(a, b);
                        lemma_same_members(scanned[i], objects@[i]);
                        assert(objects@[i].has_member(a, b));
                        assert(member_of_any(objects@, a, b));
                    }
                }
            }
        }
        objects
    }
}

} // verus!
