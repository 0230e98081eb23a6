use maze_solver::color::{ClampedAdd, ClampedMul, Color, Gradient, Ratio};

fn rgb(r: u8, g: u8, b: u8) -> Color {
    Color { r, g, b }
}

#[test]
fn scale_by_zero_is_black() {
    let c = rgb(17, 200, 255);
    assert_eq!(c.clamped_mul(Ratio { num: 0, den: 1 }), rgb(0, 0, 0));
    assert_eq!(rgb(255, 255, 255).clamped_mul(Ratio { num: 0, den: 7 }), rgb(0, 0, 0));
}

#[test]
fn scale_by_two_saturates() {
    let c = rgb(200, 200, 200);
    assert_eq!(c.clamped_mul(Ratio { num: 2, den: 1 }), rgb(255, 255, 255));
}

#[test]
fn scale_rounds_to_nearest() {
    // 100 * 1/3 = 33.33... rounds to 33; 100 * 1/2 = 50; 255 * 1/2 = 127.5
    // rounds up to 128
    assert_eq!(rgb(100, 100, 255).clamped_mul(Ratio { num: 1, den: 3 }).r, 33);
    assert_eq!(rgb(100, 100, 255).clamped_mul(Ratio { num: 1, den: 2 }).g, 50);
    assert_eq!(rgb(100, 100, 255).clamped_mul(Ratio { num: 1, den: 2 }).b, 128);
}

#[test]
fn add_saturates() {
    assert_eq!(rgb(250, 250, 250).clamped_add(rgb(10, 10, 10)), rgb(255, 255, 255));
    assert_eq!(rgb(1, 2, 3).clamped_add(rgb(4, 5, 6)), rgb(5, 7, 9));
}

#[test]
fn lerp_endpoints_are_exact() {
    let red = rgb(255, 0, 0);
    let green = rgb(0, 255, 0);
    assert_eq!(maze_solver::color::lerp(red, green, Ratio { num: 0, den: 1 }), red);
    assert_eq!(maze_solver::color::lerp(red, green, Ratio { num: 1, den: 1 }), green);
    // the factor is clamped to [0, 1]
    assert_eq!(maze_solver::color::lerp(red, green, Ratio { num: 9, den: 1 }), green);
}

#[test]
fn lerp_midpoint_blends() {
    let red = rgb(255, 0, 0);
    let green = rgb(0, 255, 0);
    let mid = maze_solver::color::lerp(red, green, Ratio { num: 1, den: 2 });
    assert_eq!(mid, rgb(128, 128, 0));
}

#[test]
fn linear_gradient_follows_lerp() {
    let g = Gradient::Linear { from: rgb(255, 0, 0), to: rgb(0, 255, 0) };
    assert_eq!(g.color_at(0, 2), rgb(255, 0, 0));
    assert_eq!(g.color_at(1, 2), rgb(128, 128, 0));
}

#[test]
fn alternating_gradient_switches_by_parity() {
    let g = Gradient::Alternating { first: rgb(0, 0, 255), second: rgb(0, 255, 255) };
    assert_eq!(g.color_at(0, 5), rgb(0, 0, 255));
    assert_eq!(g.color_at(1, 5), rgb(0, 255, 255));
    assert_eq!(g.color_at(2, 5), rgb(0, 0, 255));
    assert_eq!(g.color_at(3, 5), rgb(0, 255, 255));
}

#[test]
fn alternating_gradient_ignores_total() {
    let g = Gradient::Alternating { first: rgb(1, 2, 3), second: rgb(4, 5, 6) };
    assert_eq!(g.color_at(4, 9), rgb(1, 2, 3));
    assert_eq!(g.color_at(5, 9), rgb(4, 5, 6));
}
