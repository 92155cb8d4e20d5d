use segmenter::color::{compare, Rgb};
use segmenter::colorize::{colorize, default_palette};
use segmenter::graph::Graph;
use segmenter::grid::{linearize, to_pair};

fn rgb(r: u8, g: u8, b: u8) -> Rgb {
    Rgb { r, g, b }
}

#[test]
fn uniform_two_by_two_is_one_region() {
    let pixels = vec![rgb(100, 100, 100); 4];
    let mut g = Graph::build(&pixels, &2, &2);
    g.label_all();
    for i in 0..4u32 {
        assert_eq!(g.get_label(&i), 1);
    }
    assert_eq!(g.label_count, 2);
}

#[test]
fn contrasting_two_by_two_is_four_regions() {
    let pixels = vec![rgb(0, 0, 0), rgb(255, 255, 255), rgb(255, 255, 255), rgb(0, 0, 0)];
    let mut g = Graph::build(&pixels, &2, &2);
    g.label_all();
    assert_eq!(g.get_label(&0), 1);
    assert_eq!(g.get_label(&1), 2);
    assert_eq!(g.get_label(&2), 3);
    assert_eq!(g.get_label(&3), 4);
    assert_eq!(g.label_count, 5);
}

#[test]
fn compare_is_exact_at_the_threshold() {
    // 512-scaled squared distance (1024+35)*35*35 = 1297275 >= 1280000
    assert!(!compare(&rgb(35, 0, 0), &rgb(0, 0, 0)));
    // swapped: (1024-35)*35*35 = 1211525 < 1280000
    assert!(compare(&rgb(0, 0, 0), &rgb(35, 0, 0)));
    assert!(compare(&rgb(7, 7, 7), &rgb(7, 7, 7)));
    assert!(!compare(&rgb(0, 0, 0), &rgb(255, 255, 255)));
}

#[test]
fn compare_symmetric_when_red_channels_agree() {
    let a = rgb(10, 200, 30);
    let b = rgb(10, 150, 90);
    assert_eq!(compare(&a, &b), compare(&b, &a));
}

#[test]
fn linearize_and_to_pair_round_trip() {
    let idx = linearize(&3, &4, &7);
    assert_eq!(idx, 25);
    let p = to_pair(&25, &7);
    assert_eq!(p.x, 3);
    assert_eq!(p.y, 4);
}

#[test]
fn colorize_wraps_labels_around_the_palette() {
    let palette = default_palette();
    assert_eq!(palette.len(), 16);
    let labels = vec![0u32, 1, 15, 16, 17];
    let out = colorize(&labels, &palette);
    for (i, &l) in labels.iter().enumerate() {
        assert_eq!(out[i], palette[(l as usize) % 16]);
    }
}

#[test]
fn colorize_twice_gives_identical_output() {
    let palette = default_palette();
    let labels = vec![1u32, 2, 3, 4, 20];
    let first = colorize(&labels, &palette);
    let second = colorize(&labels, &palette);
    assert_eq!(first, second);
}

#[test]
fn chain_graph_labels_by_scan_order() {
    let mut g = Graph::new(&3, &1);
    g.add_edge(&0, &1);
    g.add_edge(&1, &0);
    g.label_all();
    assert_eq!(g.get_label(&0), 1);
    assert_eq!(g.get_label(&1), 1);
    assert_eq!(g.get_label(&2), 2);
    assert_eq!(g.label_count, 3);
}

#[test]
fn near_threshold_pair_links_one_way_only() {
    // The red-only difference of 35 sits on either side of the threshold
    // depending on the comparison order, so the built graph has an edge from
    // pixel 1 to pixel 0 but none back, and the labeler, scanning pixel 0
    // first, leaves the pair in two regions.
    let pixels = vec![rgb(35, 0, 0), rgb(0, 0, 0)];
    let mut g = Graph::build(&pixels, &2, &1);
    g.label_all();
    assert_eq!(g.get_label(&0), 1);
    assert_eq!(g.get_label(&1), 2);
    assert_eq!(g.label_count, 3);
}
