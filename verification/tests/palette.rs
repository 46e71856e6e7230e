use fractal_zoomer::colour::Palette;

#[test]
fn test_palette_generation() {
    for palette_type in Palette::all() {
        let palette = palette_type.generate(256);
        assert_eq!(palette.len(), 256);

        for (r, g, b) in &palette {
            assert!(*r <= 255);
            assert!(*g <= 255);
            assert!(*b <= 255);
        }
    }
}
