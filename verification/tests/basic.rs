use heka::boxalloc::Allocator;
use heka::color::Color;
use heka::position::Direction;
use heka::sizing::{Padding, SizeSpec};
use heka::{Root, Space};

#[test]
fn allocator_recycles_oldest_slot() {
    let mut a: Allocator<u32> = Allocator::new();
    let i0 = a.allocate(10);
    let i1 = a.allocate(11);
    assert_eq!(i0, 0);
    assert_eq!(i1, 1);
    assert!(a.dealloc(i0));
    assert!(!a.dealloc(i0));
    let i2 = a.allocate(12);
    assert_eq!(i2, 0);
    assert_eq!(a.get(i2), Some(&12));
    assert_eq!(a.get(i1), Some(&11));
    assert_eq!(a.get(7), None);
}

#[test]
fn color_hex_round_trip() {
    let c = Color::Hex(0x4455ee_ff);
    assert_eq!(c.r, 0x44);
    assert_eq!(c.g, 0x55);
    assert_eq!(c.b, 0xee);
    assert_eq!(c.a, 0xff);
    let packed = c.with_alpha(0x80).as_u32();
    assert_eq!(packed, 0x8044_55ee);
}

#[test]
fn resolve_size_semantics() {
    assert_eq!(SizeSpec::Pixel(40).resolve_size(100), Some(40));
    assert_eq!(SizeSpec::Percent(50).resolve_size(200), Some(100));
    assert_eq!(SizeSpec::Fill.resolve_size(123), Some(123));
    assert_eq!(SizeSpec::Fit.resolve_size(99), None);
    assert_eq!(SizeSpec::Auto.resolve_size(99), None);
    assert!(Padding::new_all(0).is_zero());
}

#[test]
fn frames_and_generational_safety() {
    let mut root: Root<u32> = Root::new(800, 600);
    assert!(!root.is_dirty());
    let f = root.add_frame(None);
    assert!(root.is_dirty());
    let r = f.get_ref();
    assert_eq!(root.get_space(r), Some(Space::zero()));
    let child = root.add_frame_child(&f, None);
    let cr = child.get_ref();
    assert!(root.get_style(cr).is_some());
    f.update_style(&mut root, |mut s| {
        s.gap = 3;
        s
    });
    assert_eq!(root.get_style(r).unwrap().gap, 3);
}

#[test]
fn bindings_round_trip() {
    let mut root: Root<String> = Root::new(10, 10);
    let d = root.set_binding(String::from("payload"));
    let f = root.add_frame(Some(d));
    assert_eq!(root.get_binding(d), Some(&String::from("payload")));
    assert_eq!(
        root.get_binding_for_frame(&f),
        Some(&String::from("payload"))
    );
    assert!(root.unbind_data(f.get_ref()));
    assert_eq!(root.get_binding(d), None);
}

#[test]
fn remove_frame_subtree_and_generations() {
    let mut root: Root<u32> = Root::new(100, 100);
    let a = root.add_frame(None);
    let b = root.add_frame_child(&a, None);
    let c = root.add_frame_child(&b, None);
    root.remove_frame(a.get_ref());
    assert!(root.get_space(a.get_ref()).is_none());
    assert!(root.get_style(b.get_ref()).is_none());
    assert!(root.get_space(c.get_ref()).is_none());
    // a recycled slot mints a fresh generation: the old handle stays stale
    let d = root.add_frame(None);
    assert!(root.get_space(d.get_ref()).is_some());
    assert!(root.get_space(a.get_ref()).is_none());
    // removing an already-stale handle changes nothing
    root.remove_frame(a.get_ref());
    assert!(root.get_space(d.get_ref()).is_some());
}

#[test]
fn hit_test_inclusive_bounds_and_order() {
    let mut root: Root<u32> = Root::new(200, 200);
    let a = root.add_frame(None);
    let b = root.add_frame(None);
    // both frames still carry their zeroed space: the box is the origin
    let hits = root.hit_test(0, 0);
    assert_eq!(hits, vec![a.get_ref(), b.get_ref()]);
    assert!(root.hit_test(1, 0).is_empty());
    // the slot order ties handle order: ids ascend
    assert!(hits[0] < hits[1]);
}

#[test]
fn measure_fit_leaf_and_row() {
    let mut root: Root<u32> = Root::new(800, 600);
    let panel = root.add_frame(None);
    let a = root.add_frame_child(&panel, None);
    let b = root.add_frame_child(&panel, None);
    a.update_style(&mut root, |mut s| {
        s.width = SizeSpec::Fit;
        s.height = SizeSpec::Fit;
        s.intrinsic_width = Some(100);
        s.intrinsic_height = Some(20);
        s
    });
    b.update_style(&mut root, |mut s| {
        s.width = SizeSpec::Pixel(30);
        s.height = SizeSpec::Pixel(10);
        s
    });
    // a Fit leaf wraps its intrinsic size exactly
    assert_eq!(root.measure_frame(a.get_ref()), Some((100, 20)));
    panel.update_style(&mut root, |mut s| {
        s.width = SizeSpec::Fit;
        s.height = SizeSpec::Fit;
        s.flow = Direction::Row;
        s.gap = 2;
        s
    });
    // row content: widths sum plus one gap, heights max
    assert_eq!(root.measure_frame(panel.get_ref()), Some((132, 20)));
    let gone = root.add_frame(None);
    root.remove_frame(gone.get_ref());
    assert_eq!(root.measure_frame(gone.get_ref()), None);
}
