use deduck::hasher::FileBytes;
use deduck::similar::ImagePrint;
use deduck::similar::hamming_distance;
use deduck::similar::similar_clusters;
use deduck::similar::similar_images;

fn b(s: &str) -> Vec<u8> {
    s.as_bytes().to_vec()
}

fn bits(ones: usize) -> Vec<bool> {
    let mut v = vec![false; 64];
    for slot in v.iter_mut().take(ones) {
        *slot = true;
    }
    v
}

#[test]
fn hamming_distance_counts_differing_positions() {
    assert_eq!(hamming_distance(&bits(0), &bits(0)), 0);
    assert_eq!(hamming_distance(&bits(3), &bits(0)), 3);
    assert_eq!(hamming_distance(&bits(10), &bits(3)), 7);
    assert_eq!(hamming_distance(&vec![true, false], &vec![false, true]), 2);
}

#[test]
fn distance_three_matches_at_ten_but_not_at_two() {
    // two fingerprints differing by a Hamming distance of 3
    let prints = vec![
        ImagePrint { path: b("one.png"), bits: bits(0) },
        ImagePrint { path: b("two.png"), bits: bits(3) },
    ];

    let matched = similar_clusters(&prints, 10);
    assert_eq!(matched.len(), 1);
    assert_eq!(matched[0].base, b("one.png"));
    assert_eq!(matched[0].similar, vec![b("two.png")]);

    let unmatched = similar_clusters(&prints, 2);
    assert_eq!(unmatched.len(), 0);
}

#[test]
fn linking_is_pairwise_and_never_to_itself() {
    // a ~ b and b ~ c within the threshold, a and c outside it: each base
    // keeps its own list, and no path is linked to itself
    let prints = vec![
        ImagePrint { path: b("a.png"), bits: bits(0) },
        ImagePrint { path: b("b.png"), bits: bits(4) },
        ImagePrint { path: b("c.png"), bits: bits(8) },
    ];
    let groups = similar_clusters(&prints, 5);
    assert_eq!(groups.len(), 2);
    assert_eq!(groups[0].base, b("a.png"));
    assert_eq!(groups[0].similar, vec![b("b.png")]);
    assert_eq!(groups[1].base, b("b.png"));
    assert_eq!(groups[1].similar, vec![b("c.png")]);
}

fn encode_png(pixel: [u8; 3]) -> Vec<u8> {
    let img = image::RgbImage::from_pixel(64, 64, image::Rgb(pixel));
    let dynimg = image::DynamicImage::ImageRgb8(img);
    let mut data: Vec<u8> = Vec::new();
    dynimg
        .write_to(&mut std::io::Cursor::new(&mut data), image::ImageOutputFormat::Png)
        .unwrap();
    data
}

fn encode_jpeg(pixel: [u8; 3]) -> Vec<u8> {
    let img = image::RgbImage::from_pixel(64, 64, image::Rgb(pixel));
    let dynimg = image::DynamicImage::ImageRgb8(img);
    let mut data: Vec<u8> = Vec::new();
    dynimg
        .write_to(&mut std::io::Cursor::new(&mut data), image::ImageOutputFormat::Jpeg(90))
        .unwrap();
    data
}

#[test]
fn fingerprints_come_from_the_decoded_pixels() {
    // the same picture encoded two different ways fingerprints alike, so
    // the two files are linked even though their bytes differ everywhere
    let png = encode_png([200, 30, 30]);
    let jpeg = encode_jpeg([200, 30, 30]);
    assert_ne!(png, jpeg);
    let files = vec![
        FileBytes { path: b("one.png"), data: png },
        FileBytes { path: b("two.jpg"), data: jpeg },
    ];
    let groups = similar_images(&files, 10);
    assert_eq!(groups.len(), 1);
    assert_eq!(groups[0].base, b("one.png"));
    assert_eq!(groups[0].similar, vec![b("two.jpg")]);
}

#[test]
fn undecodable_files_are_skipped_not_fatal() {
    let files = vec![
        FileBytes { path: b("broken.png"), data: b("this is not an image") },
        FileBytes { path: b("fine.png"), data: encode_png([10, 200, 10]) },
    ];
    let groups = similar_images(&files, 10);
    assert_eq!(groups.len(), 0);
}
