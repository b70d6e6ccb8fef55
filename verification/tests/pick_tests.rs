use bnchroma::pick::{decode_image, sample_palette, 
    cache_key_from_hash, compute_cache_key, decode_palette, median_cut, palette_bytes, render_hex,
    CacheError,
};

#[test]
fn median_cut_gives_eight_colors() {
    let pixels: Vec<[u8; 3]> = (0..4096u32).map(|i| [(i % 256) as u8, (i / 16) as u8, 7]).collect();
    let colors = median_cut(&pixels);
    assert_eq!(colors.len(), 8);
}

#[test]
fn median_cut_of_nothing_is_black() {
    assert_eq!(median_cut(&[]), vec![[0, 0, 0]; 8]);
}

#[test]
fn median_cut_of_one_color_repeats_it() {
    assert_eq!(median_cut(&[[10, 20, 30]; 50]), vec![[10, 20, 30]; 8]);
}

#[test]
fn median_cut_splits_two_colors() {
    let mut pixels = vec![[0, 0, 0]; 3];
    pixels.extend(vec![[200, 100, 50]; 5]);
    let colors = median_cut(&pixels);
    // First cut on red: sorted [0 x3, 200 x5], halves of 4: [0,0,0,200] and [200 x4].
    // Then the mixed box splits into [0,0] and [0,200]; then [0,200] into [0] and [200]...
    assert_eq!(colors.len(), 8);
    assert!(colors.contains(&[200, 100, 50]));
    assert!(colors.contains(&[0, 0, 0]));
}

#[test]
fn median_cut_orders_by_box_size_and_averages() {
    // Four pixels, red spread only: one cut gives [0, 10] and [100, 110],
    // then the second box (same spread, later) waits: the first box with the
    // widest spread is cut first.
    let pixels = vec![[0, 0, 0], [100, 0, 0], [10, 0, 0], [110, 0, 0]];
    let colors = median_cut(&pixels);
    assert_eq!(
        colors,
        vec![
            [0, 0, 0],
            [100, 0, 0],
            [10, 0, 0],
            [110, 0, 0],
            [110, 0, 0],
            [110, 0, 0],
            [110, 0, 0],
            [110, 0, 0],
        ]
    );
    let pixels = vec![[0, 0, 0], [0, 0, 0], [0, 0, 0], [9, 0, 0]];
    let colors = median_cut(&pixels);
    assert_eq!(colors[0], [0, 0, 0]);
}

#[test]
fn median_cut_average_rounds_down() {
    let colors = median_cut(&[[1, 2, 3], [1, 2, 3], [1, 2, 3]]);
    assert_eq!(colors[0], [1, 2, 3]);
}

#[test]
fn palette_bytes_roundtrip() {
    let colors: Vec<[u8; 3]> = (0..8u8).map(|i| [i, i * 2, 255 - i]).collect();
    let bytes = palette_bytes(&colors);
    assert_eq!(bytes.len(), 24);
    assert_eq!(&bytes[..6], &[0, 0, 255, 1, 2, 254]);
    assert_eq!(decode_palette(&bytes), Ok(colors));
}

#[test]
fn palette_bytes_pads_and_cuts() {
    let bytes = palette_bytes(&[[9, 8, 7]]);
    assert_eq!(&bytes[..3], &[9, 8, 7]);
    assert!(bytes[3..].iter().all(|&b| b == 0));
    let many = vec![[1, 1, 1]; 10];
    assert_eq!(palette_bytes(&many), vec![1; 24]);
}

#[test]
fn decode_palette_refuses_bad_length() {
    assert_eq!(decode_palette(&[0; 23]), Err(CacheError::BadLength));
    assert_eq!(decode_palette(&[0; 25]), Err(CacheError::BadLength));
    assert_eq!(decode_palette(&[]), Err(CacheError::BadLength));
}

#[test]
fn render_hex_lists_lower_case_lines() {
    assert_eq!(render_hex(&[[0xab, 0x01, 0xff], [0, 0, 0]]), "#ab01ff\n#000000");
    assert_eq!(render_hex(&[]), "");
}

#[test]
fn cache_keys_are_sixteen_hex_digits() {
    assert_eq!(cache_key_from_hash(0x1234abcd), "000000001234abcd");
    assert_eq!(cache_key_from_hash(u64::MAX), "ffffffffffffffff");
    let k = compute_cache_key(b"/tmp/wall.png", 1234, 5678);
    assert_eq!(k.len(), 16);
    assert!(k.chars().all(|c| c.is_ascii_hexdigit() && !c.is_ascii_uppercase()));
    assert_eq!(k, compute_cache_key(b"/tmp/wall.png", 1234, 5678));
    assert_ne!(k, compute_cache_key(b"/tmp/wall.png", 1234, 5679));
}

/// A 24-bit BMP of `w` by 1 pixels, given left to right.
fn bmp_row(pixels: &[[u8; 3]]) -> Vec<u8> {
    let w = pixels.len() as u32;
    let row = (3 * w + 3) / 4 * 4;
    let size = 54 + row;
    let mut b = Vec::new();
    b.extend_from_slice(b"BM");
    b.extend_from_slice(&size.to_le_bytes());
    b.extend_from_slice(&0u32.to_le_bytes());
    b.extend_from_slice(&54u32.to_le_bytes());
    b.extend_from_slice(&40u32.to_le_bytes());
    b.extend_from_slice(&(w as i32).to_le_bytes());
    b.extend_from_slice(&1i32.to_le_bytes());
    b.extend_from_slice(&1u16.to_le_bytes());
    b.extend_from_slice(&24u16.to_le_bytes());
    b.extend_from_slice(&0u32.to_le_bytes());
    b.extend_from_slice(&row.to_le_bytes());
    b.extend_from_slice(&2835i32.to_le_bytes());
    b.extend_from_slice(&2835i32.to_le_bytes());
    b.extend_from_slice(&0u32.to_le_bytes());
    b.extend_from_slice(&0u32.to_le_bytes());
    for p in pixels {
        b.extend_from_slice(&[p[2], p[1], p[0]]);
    }
    while b.len() < size as usize {
        b.push(0);
    }
    b
}

#[test]
fn decode_image_reads_a_bmp() {
    let bytes = bmp_row(&[[10, 20, 30], [200, 100, 50]]);
    let (w, h, px) = decode_image(&bytes).unwrap();
    assert_eq!((w, h), (2, 1));
    assert_eq!(px, vec![[10, 20, 30], [200, 100, 50]]);
}

#[test]
fn decode_image_refuses_other_bytes() {
    assert_eq!(decode_image(b"not an image at all"), None);
    assert_eq!(decode_image(b""), None);
}

#[test]
fn sample_palette_without_target_is_median_cut() {
    let px = vec![[0, 0, 0], [255, 255, 255]];
    assert_eq!(sample_palette(2, 1, &px, None), median_cut(&px));
}

#[test]
fn sample_palette_resamples_to_the_target() {
    let px = vec![[0, 0, 0], [255, 255, 255]];
    let colors = sample_palette(2, 1, &px, Some((1, 1)));
    assert_eq!(colors.len(), 8);
    assert!(colors.iter().all(|c| *c == colors[0]));
    assert!(colors[0] != [0, 0, 0] && colors[0] != [255, 255, 255]);
    let flat = vec![[7, 8, 9]; 16];
    assert_eq!(sample_palette(4, 4, &flat, Some((2, 2))), vec![[7, 8, 9]; 8]);
}
