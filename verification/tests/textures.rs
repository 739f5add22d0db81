use pathtracer::texture::perlin::{perlin_generate_perm, permute, Perlin};
use pathtracer::texture::texture::ImageTexture;

#[test]
fn perm_table_lists_the_slots_in_order() {
    assert_eq!(perlin_generate_perm(1), vec![0]);
    assert_eq!(perlin_generate_perm(2), vec![0, 1]);
    assert_eq!(perlin_generate_perm(5), vec![0, 1, 2, 3, 4]);
    let big = perlin_generate_perm(256);
    assert_eq!(big.len(), 256);
    for (slot, value) in big.iter().enumerate() {
        assert_eq!(*value, slot);
    }
}

#[test]
fn permute_hands_the_table_back() {
    let mut one = vec![42];
    permute(&mut one, 1);
    assert_eq!(one, vec![42]);
    let mut many = vec![3, 1, 4, 1, 5, 9];
    permute(&mut many, 6);
    assert_eq!(many, vec![3, 1, 4, 1, 5, 9]);
    let mut part = vec![8, 6, 7];
    permute(&mut part, 2);
    assert_eq!(part, vec![8, 6, 7]);
}

#[test]
fn lattice_has_three_tables_of_its_resolution() {
    let lattice = Perlin::new(300);
    assert_eq!(lattice.resolution, 300);
    assert_eq!(lattice.perm_x.len(), 300);
    assert_eq!(lattice.perm_y.len(), 300);
    assert_eq!(lattice.perm_z.len(), 300);
    assert_eq!(lattice.perm_x[299], 299);
}

#[test]
fn gradient_hashes_the_wrapped_corner() {
    let lattice = Perlin::new(256);
    assert_eq!(lattice.gradient(0, 0, 0, 0, 0, 0), 0);
    assert_eq!(lattice.gradient(1, 2, 4, 0, 0, 0), 7);
    assert_eq!(lattice.gradient(1, 2, 4, 1, 1, 1), 2 ^ 3 ^ 5);
    assert_eq!(lattice.gradient(255, 0, 0, 1, 0, 0), 0);
    assert_eq!(lattice.gradient(256 + 9, 512 + 9, 3, 0, 0, 0), 3);
    assert_eq!(lattice.gradient(5, 5, 0, 0, 0, 0), 0);
    for i in 250..260 {
        for d in 0..2 {
            assert!(lattice.gradient(i, 2 * i, 3 * i, d, 1 - d, d) < 256);
        }
    }
}

fn picture() -> ImageTexture {
    // 2 columns, 3 rows
    let mut data = Vec::new();
    for pixel in 0..6u8 {
        data.push(10 * pixel);
        data.push(10 * pixel + 1);
        data.push(10 * pixel + 2);
    }
    ImageTexture::new(data, 2, 3)
}

#[test]
fn image_texture_keeps_what_it_is_given() {
    let picture = ImageTexture::new(vec![1, 2, 3], 1, 1);
    assert_eq!(picture.data, vec![1, 2, 3]);
    assert_eq!(picture.width, 1);
    assert_eq!(picture.height, 1);
}

#[test]
fn image_texture_reads_three_bytes_per_pixel() {
    let picture = picture();
    assert_eq!(picture.get_color(0, 0), (0, 1, 2));
    assert_eq!(picture.get_color(1, 0), (10, 11, 12));
    assert_eq!(picture.get_color(0, 1), (20, 21, 22));
    assert_eq!(picture.get_color(1, 2), (50, 51, 52));
}

#[test]
fn image_texture_clamps_to_the_last_column_and_row() {
    let picture = picture();
    assert_eq!(picture.get_color(2, 0), (10, 11, 12));
    assert_eq!(picture.get_color(0, 3), (40, 41, 42));
    assert_eq!(picture.get_color(usize::MAX, usize::MAX), (50, 51, 52));
}

#[test]
fn image_texture_completeness() {
    assert!(picture().is_complete());
    assert!(!ImageTexture::new(vec![0; 17], 2, 3).is_complete());
    assert!(ImageTexture::new(vec![0; 19], 2, 3).is_complete());
    assert!(!ImageTexture::new(vec![], 0, 3).is_complete());
    assert!(!ImageTexture::new(vec![], 3, 0).is_complete());
    assert!(!ImageTexture::new(vec![0; 100], usize::MAX, 2).is_complete());
    assert!(!ImageTexture::new(vec![0; 100], usize::MAX / 3, 2).is_complete());
}
