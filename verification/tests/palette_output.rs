use qualetize_gui::palette_output::{assemble_output, PixelChoice};

fn chosen(palette: usize, color: usize) -> PixelChoice {
    PixelChoice { palette, color: Some(color) }
}

#[test]
fn an_output_index_is_its_palette_times_the_stride_plus_its_color() {
    let palettes = vec![vec![[0, 0, 0], [255, 0, 0]], vec![[0, 0, 0], [0, 0, 255]]];
    let choices = vec![chosen(0, 1), chosen(1, 1)];
    let result = assemble_output(&palettes, None, &choices, 2, 1);
    assert_eq!(result.colors_per_palette, 2);
    assert_eq!(result.palette_data.len(), 4);
    assert_eq!(result.indexed_data, [1, 3]);
    assert!(result.palette_data.iter().all(|color| color.a == 255));
    assert_eq!((result.palette_data[1].r, result.palette_data[1].b), (255, 0));
    assert_eq!((result.palette_data[3].r, result.palette_data[3].b), (0, 255));
    assert_eq!((result.width, result.height), (2, 1));
}

#[test]
fn a_transparent_index_zero_leads_every_palette_and_widens_the_stride() {
    let palettes = vec![vec![[0, 255, 0], [0, 0, 255]], vec![[255, 255, 0], [0, 255, 255]]];
    let choices = vec![PixelChoice { palette: 1, color: None }, chosen(0, 1)];
    let result = assemble_output(&palettes, Some([255, 0, 0]), &choices, 2, 1);
    assert_eq!(result.colors_per_palette, 3, "two colors plus the inserted one");
    assert_eq!(result.palette_data.len(), 6);
    for block in result.palette_data.chunks(3) {
        assert_eq!((block[0].r, block[0].g, block[0].b, block[0].a), (255, 0, 0, 0));
        assert_eq!(block[1].a, 255);
    }
    assert_eq!(result.indexed_data, [3, 2]);
}

#[test]
fn shorter_palettes_get_a_matching_stride() {
    let palettes = vec![vec![[255, 0, 0]], vec![[0, 0, 255]]];
    let choices = vec![chosen(0, 0), chosen(1, 0)];
    let result = assemble_output(&palettes, None, &choices, 2, 1);
    assert_eq!(result.colors_per_palette, 1);
    assert_eq!(result.indexed_data, [0, 1]);
    assert!(result.indexed_data.iter().all(|&index| (index as usize) < result.palette_data.len()));
}

#[test]
fn the_last_index_of_a_full_layout_fits_a_byte() {
    let palettes = vec![vec![[7, 7, 7]; 15]; 16];
    let choices = vec![PixelChoice { palette: 15, color: Some(14) }];
    let result = assemble_output(&palettes, Some([0, 0, 0]), &choices, 1, 1);
    assert_eq!(result.palette_data.len(), 256);
    assert_eq!(result.indexed_data, [255]);
}
