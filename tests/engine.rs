use std::io::Cursor;

use dupscan::exact::{average_group_size, build_exact_groups, group_candates, ExactGroup};
use dupscan::fingerprint::{content_hash, perceptual_hash, PREFIX_LEN};
use dupscan::record::{image_count, total_size, FileData, Fingerprint, FingerprintState};
use dupscan::similar::{build_perception_groups, descriptor_distance, similar_groups, ALLOWED_DISTANCE};
use pdqhash::image::{DynamicImage, ImageBuffer, ImageOutputFormat, Luma};

fn hashed(path: &str, contents: &[u8], perceptual: bool) -> FileData {
    let mut f = FileData::from_file(path.to_string());
    f.hash(contents, perceptual);
    f
}

fn with_descriptor(path: &str, content: u64, d: [u8; 32]) -> FileData {
    FileData {
        path: path.to_string(),
        state: FingerprintState::Fingerprinted(Fingerprint { size: 10, content, perceptual: Some(d) }),
    }
}

fn members(g: &ExactGroup) -> Vec<usize> {
    g.members.clone()
}

fn gradient() -> DynamicImage {
    DynamicImage::ImageLuma8(ImageBuffer::from_fn(64, 64, |x, y| Luma([((x * 4 + y) % 256) as u8])))
}

fn squares() -> DynamicImage {
    DynamicImage::ImageLuma8(ImageBuffer::from_fn(64, 64, |x, y| {
        Luma([if (x / 8 + y / 8) % 2 == 0 { 255 } else { 0 }])
    }))
}

fn encode(img: &DynamicImage, format: ImageOutputFormat) -> Vec<u8> {
    let mut out = Cursor::new(Vec::new());
    img.write_to(&mut out, format).unwrap();
    out.into_inner()
}

#[test]
fn small_file_is_hashed_in_full() {
    let bytes = b"hello world".to_vec();
    assert_eq!(content_hash(&bytes), seahash::hash(&bytes));
    let other = b"hello worle".to_vec();
    assert_ne!(content_hash(&bytes), content_hash(&other));
}

#[test]
fn large_file_is_hashed_on_its_prefix() {
    let bytes: Vec<u8> = (0..10000u32).map(|i| (i % 251) as u8).collect();
    assert_eq!(content_hash(&bytes), seahash::hash(&bytes[..PREFIX_LEN]));
    assert_ne!(content_hash(&bytes), seahash::hash(&bytes));
}

#[test]
fn equal_prefixes_give_equal_fingerprints() {
    let mut a: Vec<u8> = vec![7u8; 5000];
    let mut b: Vec<u8> = vec![7u8; 8000];
    a[4500] = 1;
    b[6000] = 2;
    assert_eq!(content_hash(&a), content_hash(&b));
    let mut c = a.clone();
    c[4095] = 0;
    assert_ne!(content_hash(&a), content_hash(&c));
}

#[test]
fn fingerprint_is_deterministic() {
    let bytes = b"some file contents".to_vec();
    let a = hashed("a", &bytes, false);
    let b = hashed("b", &bytes, false);
    match (a.state, b.state) {
        (FingerprintState::Fingerprinted(x), FingerprintState::Fingerprinted(y)) => {
            assert_eq!(x.content, y.content);
            assert_eq!(x.size, bytes.len());
            assert_eq!(x.content, content_hash(&bytes));
        }
        _ => panic!("records were not fingerprinted"),
    }
}

#[test]
fn two_identical_files_form_one_group() {
    let bytes = b"duplicate".to_vec();
    let data = vec![hashed("a", &bytes, false), hashed("b", &bytes, false)];
    let groups = build_exact_groups(&data);
    assert_eq!(groups.len(), 1);
    assert_eq!(members(&groups[0]), vec![0, 1]);
    assert_eq!(groups[0].hash, content_hash(&bytes));
    assert_eq!(average_group_size(&groups), Some(2));
}

#[test]
fn distinct_files_form_no_group() {
    let data: Vec<FileData> = (0..5u8).map(|i| hashed("f", &[i, i, i], false)).collect();
    let groups = build_exact_groups(&data);
    assert!(groups.is_empty());
    assert_eq!(average_group_size(&groups), None);
    assert_eq!(group_candates(&data).len(), 5);
}

#[test]
fn exact_groups_partition_the_records() {
    let contents: Vec<&[u8]> = vec![b"x", b"y", b"x", b"z", b"y", b"x"];
    let data: Vec<FileData> = contents.iter().map(|c| hashed("f", c, false)).collect();
    let groups = build_exact_groups(&data);
    assert_eq!(groups.len(), 2);
    assert!(groups[0].hash < groups[1].hash);
    let mut seen = Vec::new();
    for g in &groups {
        assert!(g.members.len() >= 2);
        for m in &g.members {
            assert!(!seen.contains(m));
            seen.push(*m);
        }
    }
    seen.sort();
    assert_eq!(seen, vec![0, 1, 2, 4, 5]);
    let sizes: Vec<usize> = groups.iter().map(|g| g.members.len()).collect();
    assert_eq!(average_group_size(&groups), Some(sizes.iter().sum::<usize>() / 2));
}

#[test]
fn candidates_include_singletons_in_fingerprint_order() {
    let data = vec![hashed("a", b"one", false), hashed("b", b"two", false), hashed("c", b"one", false)];
    let groups = group_candates(&data);
    assert_eq!(groups.len(), 2);
    assert!(groups[0].hash < groups[1].hash);
    let one = content_hash(b"one");
    let g = groups.iter().find(|g| g.hash == one).unwrap();
    assert_eq!(members(g), vec![0, 2]);
}

#[test]
fn unfingerprinted_record_is_excluded() {
    let bytes = b"same".to_vec();
    let data = vec![
        hashed("a", &bytes, false),
        FileData::from_file("gone".to_string()),
        hashed("b", &bytes, false),
    ];
    let groups = build_exact_groups(&data);
    assert_eq!(groups.len(), 1);
    assert_eq!(members(&groups[0]), vec![0, 2]);
    assert_eq!(total_size(&data), 8);
    assert!(similar_groups(&data, 256).is_empty());
}

#[test]
fn distance_counts_differing_bits() {
    assert_eq!(descriptor_distance(&[0xFF; 32], &[0; 32]), 256);
    let mut d = [0u8; 32];
    d[3] = 0b1010_0001;
    assert_eq!(descriptor_distance(&d, &[0; 32]), 3);
    assert_eq!(descriptor_distance(&d, &d), 0);
}

#[test]
fn record_is_never_similar_to_itself() {
    let data = vec![with_descriptor("a", 1, [9; 32])];
    assert!(similar_groups(&data, 256).is_empty());
}

#[test]
fn identical_descriptors_cluster_both_ways() {
    let data = vec![with_descriptor("a", 1, [5; 32]), with_descriptor("b", 2, [5; 32])];
    let groups = similar_groups(&data, 0);
    assert_eq!(groups.len(), 2);
    assert_eq!((groups[0].image, groups[0].similars.clone()), (0, vec![1]));
    assert_eq!((groups[1].image, groups[1].similars.clone()), (1, vec![0]));
}

#[test]
fn threshold_zero_groups_equal_descriptors() {
    let mut near = [5u8; 32];
    near[0] ^= 1;
    let data = vec![
        with_descriptor("a", 1, [5; 32]),
        with_descriptor("b", 2, near),
        with_descriptor("c", 3, [5; 32]),
    ];
    let groups = similar_groups(&data, 0);
    let shape: Vec<(usize, Vec<usize>)> = groups.iter().map(|g| (g.image, g.similars.clone())).collect();
    assert_eq!(shape, vec![(0, vec![2]), (2, vec![0])]);
    let groups = similar_groups(&data, 1);
    let shape: Vec<(usize, Vec<usize>)> = groups.iter().map(|g| (g.image, g.similars.clone())).collect();
    assert_eq!(shape, vec![(0, vec![1, 2]), (1, vec![0, 2]), (2, vec![0, 1])]);
}

#[test]
fn near_images_cluster_and_unrelated_one_is_left_out() {
    let mut close = [0u8; 32];
    close[0] = 0b11;
    let mut far = [0u8; 32];
    far[10] = 0xFF;
    let data = vec![
        with_descriptor("photo.jpg", 1, [0; 32]),
        with_descriptor("photo.png", 2, close),
        with_descriptor("other.png", 3, far),
        hashed("notes.txt", b"text", true),
    ];
    assert_eq!(image_count(&data), 3);
    let groups = build_perception_groups(&data);
    let shape: Vec<(usize, Vec<usize>)> = groups.iter().map(|g| (g.image, g.similars.clone())).collect();
    assert_eq!(shape, vec![(0, vec![1]), (1, vec![0])]);
    assert_eq!(ALLOWED_DISTANCE, 3);
}

#[test]
fn re_encoded_image_clusters_with_first_encoding() {
    let png = encode(&gradient(), ImageOutputFormat::Png);
    let bmp = encode(&gradient(), ImageOutputFormat::Bmp);
    let other = encode(&squares(), ImageOutputFormat::Png);
    assert_ne!(png, bmp);
    let data = vec![hashed("a.png", &png, true), hashed("a.bmp", &bmp, true), hashed("b.png", &other, true)];
    assert_eq!(image_count(&data), 3);
    let a = data[0].descriptor().unwrap();
    let b = data[1].descriptor().unwrap();
    let c = data[2].descriptor().unwrap();
    assert!(descriptor_distance(&a, &b) <= 3);
    assert!(descriptor_distance(&a, &c) > 3);
    let groups = build_perception_groups(&data);
    let shape: Vec<(usize, Vec<usize>)> = groups.iter().map(|g| (g.image, g.similars.clone())).collect();
    assert_eq!(shape, vec![(0, vec![1]), (1, vec![0])]);
}

#[test]
fn perceptual_hash_needs_an_image() {
    let png = encode(&gradient(), ImageOutputFormat::Png);
    let d = perceptual_hash(&png).unwrap();
    assert_ne!(d.to_vec(), png[..32].to_vec());
    assert!(perceptual_hash(b"not an image at all").is_none());
    assert!(hashed("a.png", &png, false).descriptor().is_none());
    assert!(hashed("a.png", &png, true).descriptor().is_some());
}

#[test]
fn sizes_are_summed() {
    let data = vec![hashed("a", &[0u8; 100], false), hashed("b", &[1u8; 23], false)];
    assert_eq!(total_size(&data), 123);
    assert_eq!(image_count(&data), 0);
}
