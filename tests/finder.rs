use dupfinder::finder::{
    close_pairs, compare_images, get_groups, group, is_image_extension, is_image_path,
    ImageInfoGroup, Pair,
};
use dupfinder::image::ImageInfo;
use std::collections::BTreeSet;

fn group_sets(groups: &[ImageInfoGroup]) -> BTreeSet<BTreeSet<usize>> {
    groups
        .iter()
        .map(|g| g.members().into_iter().collect::<BTreeSet<usize>>())
        .collect()
}

fn solid(path: &str, r: u8, g: u8, b: u8, count: usize) -> ImageInfo {
    let mut pixels = Vec::new();
    for _ in 0..count {
        pixels.extend_from_slice(&[r, g, b]);
    }
    ImageInfo::from_pixels(path.to_string(), count as u32, 1, &pixels)
}

fn set(items: &[usize]) -> BTreeSet<usize> {
    items.iter().copied().collect()
}

#[test]
fn transitive_merge_through_middle() {
    let pairs = vec![Pair::new(0, 1, 50), Pair::new(1, 2, 50), Pair::new(0, 2, 9000)];
    let close = close_pairs(&pairs, 100);
    assert_eq!(close, vec![Pair::new(0, 1, 50), Pair::new(1, 2, 50)]);
    let groups = get_groups(&close);
    assert_eq!(groups.len(), 1);
    assert_eq!(group_sets(&groups), [set(&[0, 1, 2])].into_iter().collect());
}

#[test]
fn identical_images_are_below_any_positive_threshold() {
    let images = vec![solid("a.png", 10, 20, 30, 4), solid("b.png", 10, 20, 30, 4)];
    let pairs = compare_images(&images);
    assert_eq!(pairs, vec![Pair::new(0, 1, 0)]);
    let groups = group(&images, 1);
    assert_eq!(groups.len(), 1);
    assert_eq!(groups[0].len(), 2);
    // The threshold is strict: a distance of 0 is not below 0.
    assert!(group(&images, 0).is_empty());
}

#[test]
fn grouping_ignores_pair_order() {
    let pairs = vec![
        Pair::new(0, 1, 1),
        Pair::new(2, 3, 1),
        Pair::new(4, 5, 1),
        Pair::new(1, 2, 1),
        Pair::new(6, 7, 1),
        Pair::new(5, 8, 1),
        Pair::new(9, 0, 1),
    ];
    let expected = group_sets(&get_groups(&pairs));
    assert_eq!(
        expected,
        [set(&[0, 1, 2, 3, 9]), set(&[4, 5, 8]), set(&[6, 7])].into_iter().collect()
    );
    let mut shuffled = pairs.clone();
    let mut seed: u64 = 7;
    for round in 0..50 {
        for i in (1..shuffled.len()).rev() {
            seed = seed.wrapping_mul(6364136223846793005).wrapping_add(1442695040888963407);
            let j = (seed >> 33) as usize % (i + 1);
            shuffled.swap(i, j);
        }
        assert_eq!(group_sets(&get_groups(&shuffled)), expected, "round {}", round);
    }
    let mut reversed = pairs.clone();
    reversed.reverse();
    assert_eq!(group_sets(&get_groups(&reversed)), expected);
}

#[test]
fn groups_are_disjoint() {
    let pairs = vec![
        Pair::new(0, 1, 1),
        Pair::new(2, 3, 1),
        Pair::new(3, 0, 1),
        Pair::new(4, 5, 1),
        Pair::new(1, 2, 1),
        Pair::new(5, 6, 1),
    ];
    let groups = get_groups(&pairs);
    let mut seen = BTreeSet::new();
    for g in &groups {
        assert!(g.len() >= 2);
        for m in g.members() {
            assert!(seen.insert(m), "{} is in two groups", m);
        }
    }
    assert_eq!(groups.len(), 2);
}

#[test]
fn no_pairs_no_groups() {
    assert!(get_groups(&vec![]).is_empty());
    assert!(compare_images(&[]).is_empty());
}

#[test]
fn one_unreadable_file_among_four() {
    let images = vec![
        solid("a.png", 0, 0, 0, 4),
        solid("b.png", 0, 0, 1, 4),
        ImageInfo::from_error("broken.png".to_string(), "Decoding error".to_string()),
        solid("c.png", 255, 255, 255, 4),
        solid("d.png", 255, 255, 254, 4),
    ];
    assert_eq!(images.len(), 5);
    assert_eq!(images.iter().filter(|r| r.is_decoded()).count(), 4);
    assert_eq!(images.iter().filter(|r| r.error.is_some()).count(), 1);

    let pairs = compare_images(&images);
    let keys: Vec<(usize, usize)> = pairs.iter().map(|p| (p.a, p.b)).collect();
    assert_eq!(keys, vec![(0, 1), (0, 3), (0, 4), (1, 3), (1, 4), (3, 4)]);
    assert_eq!(pairs[0].diff, 8);
    assert_eq!(pairs[1].diff, 24);
    assert!(pairs.iter().all(|p| p.a != 2 && p.b != 2));

    let groups = group(&images, 10);
    assert_eq!(group_sets(&groups), [set(&[0, 1]), set(&[3, 4])].into_iter().collect());
    let everything = group(&images, u64::MAX);
    assert_eq!(group_sets(&everything), [set(&[0, 1, 3, 4])].into_iter().collect());
}

#[test]
fn group_members_are_sets() {
    let g = ImageInfoGroup::from_vec(&[3, 1, 3, 2, 1]);
    assert_eq!(g.len(), 3);
    assert!(g.contains(1) && g.contains(2) && g.contains(3));
    assert!(!g.contains(0));
    let mut g = ImageInfoGroup::new();
    assert_eq!(g.len(), 0);
    g.insert(5);
    g.insert(5);
    assert_eq!(g.members(), vec![5]);
    let mut h = ImageInfoGroup::from_vec(&[5, 6]);
    h.absorb(&ImageInfoGroup::from_vec(&[6, 7]));
    assert_eq!(h.members().into_iter().collect::<BTreeSet<_>>(), set(&[5, 6, 7]));
}

#[test]
fn image_extensions_ignore_case() {
    assert!(is_image_path("/photos/Holiday.JPG"));
    assert!(is_image_path("scan.jpeg"));
    assert!(is_image_path("a.Png"));
    assert!(is_image_path("b.bmp"));
    assert!(is_image_path("c.GIF"));
    assert!(!is_image_path("notes.txt"));
    assert!(!is_image_path("jpg"));
    assert!(!is_image_path("archive.png.zip"));
    assert!(!is_image_path(""));
    assert!(is_image_extension(".png"));
    assert!(!is_image_extension("x.PNG"));
}

#[test]
fn pairs_of_a_record_with_itself_form_no_group() {
    let groups = get_groups(&vec![Pair::new(4, 4, 0)]);
    assert!(groups.is_empty());
    let groups = get_groups(&vec![Pair::new(1, 1, 0), Pair::new(1, 2, 0), Pair::new(3, 3, 0)]);
    assert_eq!(group_sets(&groups), [set(&[1, 2])].into_iter().collect());
}
