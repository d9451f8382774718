use vstd::prelude::*;

use crate::pixel::erased_color;
use crate::pixel::is_background_spec;
use crate::region::ObjectInfo;
use crate::search::fg;
use crate::search::member_of_any;
use crate::search::region_ok;
use crate::search::scan_result_ok;
use crate::source_image::SourceImage;

verus! {

/// Law: the image handed back by a pass is entirely background. Claimed
/// pixels were erased to opaque white, which is background, and every
/// unclaimed pixel was background already, else the scan would have claimed
/// it.
pub proof fn lemma_output_all_background(
    orig: SourceImage,
    erased: SourceImage,
    objects: Seq<ObjectInfo>,
)
    requires
        scan_result_ok(orig, erased, objects),
    ensures
        erased.all_background(),
{
    assert forall|x: int, y: int| erased.in_bounds(x, y) implies is_background_spec(
        #[trigger] erased.pixel_at(x, y),
    ) by {
        assert(orig.in_bounds(x, y));
        if member_of_any(objects, x, y) {
            assert(erased.pixel_at(x, y) == erased_color());
        } else {
            assert(!fg(orig, x, y));
            assert(erased.pixel_at(x, y) == orig.pixel_at(x, y));
        }
    }
}

/// Law: a pass over an all-background image finds no objects and leaves
/// every pixel unchanged.
pub proof fn lemma_blank_input_finds_nothing(
    orig: SourceImage,
    erased: SourceImage,
    objects: Seq<ObjectInfo>,
)
    requires
        scan_result_ok(orig, erased, objects),
        orig.all_background(),
    ensures
        objects.len() == 0,
        forall|x: int, y: int|
            orig.in_bounds(x, y) ==> #[trigger] erased.pixel_at(x, y) == orig.pixel_at(x, y),
{
    if objects.len() > 0 {
        let o = objects[0];
        assert(region_ok(orig, o));
        assert(o.member_at(0, o.pos_x(0), o.pos_y(0)));
        assert(o.has_member(o.pos_x(0), o.pos_y(0)));
        assert(fg(orig, o.pos_x(0), o.pos_y(0)));
        assert(false);
    }
    assert forall|x: int, y: int| orig.in_bounds(x, y) implies #[trigger] erased.pixel_at(x, y)
        == orig.pixel_at(x, y) by {
        assert(!member_of_any(objects, x, y));
    }
}

/// Law: running the pass a second time on its own output finds no objects
/// and leaves the buffer unchanged, because the first pass turned the whole
/// image into background.
pub proof fn lemma_rescan_finds_nothing(
    img0: SourceImage,
    img1: SourceImage,
    objs1: Seq<ObjectInfo>,
    img2: SourceImage,
    objs2: Seq<ObjectInfo>,
)
    requires
        scan_result_ok(img0, img1, objs1),
        scan_result_ok(img1, img2, objs2),
    ensures
        objs2.len() == 0,
        forall|x: int, y: int|
            img1.in_bounds(x, y) ==> #[trigger] img2.pixel_at(x, y) == img1.pixel_at(x, y),
{
    lemma_output_all_background(img0, img1, objs1);
    lemma_blank_input_finds_nothing(img1, img2, objs2);
}

} // verus!
