use raytracing::nearest::{nearest_hit, shade_nearest};

fn closer(a: &f64, b: &f64) -> bool {
    a < b
}

#[test]
fn no_objects_no_hit() {
    let hits: Vec<Option<f64>> = vec![];
    assert_eq!(nearest_hit(&hits, closer), None);
}

#[test]
fn all_missed_no_hit() {
    let hits: Vec<Option<f64>> = vec![None, None, None];
    assert_eq!(nearest_hit(&hits, closer), None);
}

#[test]
fn single_hit_is_nearest() {
    let hits: Vec<Option<f64>> = vec![None, Some(4.0), None];
    assert_eq!(nearest_hit(&hits, closer), Some(1));
}

#[test]
fn smallest_distance_wins() {
    let hits: Vec<Option<f64>> = vec![Some(3.0), None, Some(1.5), Some(2.0), Some(7.0)];
    assert_eq!(nearest_hit(&hits, closer), Some(2));
}

#[test]
fn tie_keeps_first_listed() {
    let hits: Vec<Option<f64>> = vec![Some(1.0), Some(1.0)];
    assert_eq!(nearest_hit(&hits, closer), Some(0));
    let hits: Vec<Option<f64>> = vec![Some(5.0), Some(2.0), None, Some(2.0), Some(3.0)];
    assert_eq!(nearest_hit(&hits, closer), Some(1));
}

#[test]
fn empty_scene_shows_background() {
    let hits: Vec<Option<f64>> = vec![];
    let black = (0.0f64, 0.0f64, 0.0f64);
    let seen = shade_nearest(&hits, closer, black, |_: usize, _: &f64| (1.0, 1.0, 1.0));
    assert_eq!(seen, black);
}

#[test]
fn missed_scene_shows_background() {
    let hits: Vec<Option<f64>> = vec![None, None];
    let seen = shade_nearest(&hits, closer, (0.0, 0.0, 0.0), |_: usize, _: &f64| (1.0, 1.0, 1.0));
    assert_eq!(seen, (0.0, 0.0, 0.0));
}

#[test]
fn overlapping_spheres_show_nearer_color() {
    // A red sphere hit at 1.5 and a green one, in front of it, at 1.0.
    let colors = [(1.0f64, 0.0f64, 0.0f64), (0.0f64, 1.0f64, 0.0f64)];
    let hits: Vec<Option<f64>> = vec![Some(1.5), Some(1.0)];
    let seen = shade_nearest(&hits, closer, (0.0, 0.0, 0.0), |k: usize, _: &f64| colors[k]);
    assert_eq!(seen, colors[1]);
}

#[test]
fn overlapping_spheres_tie_show_first_color() {
    let colors = [(1.0f64, 0.0f64, 0.0f64), (0.0f64, 1.0f64, 0.0f64)];
    let hits: Vec<Option<f64>> = vec![Some(1.0), Some(1.0)];
    let seen = shade_nearest(&hits, closer, (0.0, 0.0, 0.0), |k: usize, _: &f64| colors[k]);
    assert_eq!(seen, colors[0]);
}

#[test]
fn shading_gets_the_nearest_hit() {
    let hits: Vec<Option<f64>> = vec![Some(9.0), None, Some(0.25)];
    let seen = shade_nearest(&hits, closer, -1.0, |k: usize, d: &f64| k as f64 * 100.0 + *d);
    assert_eq!(seen, 200.25);
}
