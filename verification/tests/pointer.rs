use splice_core::engine::pointer::raw_landing;
use splice_core::geometry::{DisplayRect, Vec2, PIXEL};

fn display(id: &str, x: i32, w: u32, h: u32) -> DisplayRect {
    DisplayRect { id: id.to_string(), x, y: 0, w, h, scale: 1000 }
}

fn at(x: i64, y: i64) -> Vec2 {
    Vec2 { x: x * PIXEL, y: y * PIXEL }
}

#[test]
fn raw_landing_insets_the_pointer_from_display_edges() {
    let wide = display("1", 0, 1920, 1080);
    assert_eq!(raw_landing(std::slice::from_ref(&wide), at(1, 500)), at(8, 500));
    assert_eq!(raw_landing(std::slice::from_ref(&wide), at(1919, 500)), at(1912, 500));
    assert_eq!(raw_landing(std::slice::from_ref(&wide), at(900, 500)), at(900, 500));
    let small = display("2", 0, 10, 10);
    assert_eq!(raw_landing(std::slice::from_ref(&small), at(0, 0)), at(5, 5));
    let right = display("3", 1920, 1920, 1080);
    assert_eq!(raw_landing(&[wide, right], at(1920, 500)), at(1928, 500));
}
