use rusticate::engine::{dither, dither_color_image, dither_grayscale_image};
use rusticate::quantizer::{find_nearest_1bit_color, find_nearest_1bit_grayscale};
use rusticate::raster::{Mode, Raster};

fn gray(width: usize, height: usize, data: Vec<u8>) -> Raster {
    Raster::new(width, height, Mode::Grayscale, data).unwrap()
}

fn color(width: usize, height: usize, data: Vec<u8>) -> Raster {
    Raster::new(width, height, Mode::Color, data).unwrap()
}

#[test]
fn quantizer_thresholds() {
    assert_eq!(find_nearest_1bit_grayscale(0), 0);
    assert_eq!(find_nearest_1bit_grayscale(100), 0);
    assert_eq!(find_nearest_1bit_grayscale(127), 0);
    assert_eq!(find_nearest_1bit_grayscale(128), 255);
    assert_eq!(find_nearest_1bit_grayscale(200), 255);
    assert_eq!(find_nearest_1bit_grayscale(255), 255);
}

#[test]
fn quantizer_color_is_per_channel() {
    assert_eq!(find_nearest_1bit_color([0, 127, 128]), [0, 0, 255]);
    assert_eq!(find_nearest_1bit_color([255, 128, 127]), [255, 255, 0]);
}

#[test]
fn scenario_two_pixel_row() {
    // Pixel (0,0): quantize(100) = 0, error 100; (1,0) gets
    // 200 + round(100 * 7 / 16) = 244, which quantizes to 255.
    let mut img = gray(2, 1, vec![100, 200]);
    dither(&mut img);
    assert_eq!(img.into_data(), vec![0, 255]);
}

#[test]
fn scenario_checkerboard_row_is_fixed_point() {
    // Samples already at the extremes leave zero error at every step.
    let input = vec![0, 255, 0, 255, 0, 255];
    let mut img = gray(6, 1, input.clone());
    dither(&mut img);
    assert_eq!(img.into_data(), input);
}

#[test]
fn scenario_color_gray_square() {
    // All three channels start at 128 everywhere, so each channel must
    // dither exactly as the corresponding grayscale raster does.
    let mut g = gray(2, 2, vec![128, 128, 128, 128]);
    dither_grayscale_image(&mut g);
    let gray_out = g.into_data();
    assert_eq!(gray_out, vec![255, 0, 0, 255]);

    let mut c = color(2, 2, vec![128; 12]);
    dither_color_image(&mut c);
    let color_out = c.into_data();
    for p in 0..4 {
        for ch in 0..3 {
            assert_eq!(color_out[p * 3 + ch], gray_out[p]);
        }
    }
}

#[test]
fn single_pixel_is_quantized_without_diffusion() {
    let mut low = gray(1, 1, vec![100]);
    dither(&mut low);
    assert_eq!(low.into_data(), vec![0]);

    let mut high = gray(1, 1, vec![128]);
    dither(&mut high);
    assert_eq!(high.into_data(), vec![255]);
}

#[test]
fn empty_raster_is_a_noop() {
    let mut zero_width = gray(0, 5, vec![]);
    dither(&mut zero_width);
    assert_eq!(zero_width.into_data(), vec![]);

    let mut zero_height = color(7, 0, vec![]);
    dither(&mut zero_height);
    assert_eq!(zero_height.into_data(), vec![]);
}

#[test]
fn deterministic_across_runs() {
    let data = vec![3, 250, 90, 170, 128, 127, 64, 200, 11, 99, 180, 240];
    let mut a = gray(4, 3, data.clone());
    let mut b = gray(4, 3, data);
    dither(&mut a);
    dither(&mut b);
    assert_eq!(a.into_data(), b.into_data());
}

#[test]
fn diffusion_changes_a_neighbor_outcome() {
    // Alone, 100 quantizes to 0; the error diffused down (weight 5/16)
    // lifts the second sample to 131, which quantizes to 255.
    let mut img = gray(1, 2, vec![100, 100]);
    dither(&mut img);
    assert_eq!(img.into_data(), vec![0, 255]);
}

#[test]
fn adjusted_neighbor_is_clamped_high() {
    // Error 127 sends +56 to the right neighbor: 250 + 56 clamps to 255
    // instead of wrapping, so the neighbor still quantizes to 255.
    let mut img = gray(2, 1, vec![127, 250]);
    dither(&mut img);
    assert_eq!(img.into_data(), vec![0, 255]);
}

#[test]
fn adjusted_neighbor_is_clamped_low() {
    // Error -127 sends -56 to the right neighbor: 5 - 56 clamps to 0
    // instead of wrapping, so the neighbor quantizes to 0.
    let mut img = gray(2, 1, vec![128, 5]);
    dither(&mut img);
    assert_eq!(img.into_data(), vec![255, 0]);
}

#[test]
fn error_share_is_rounded_not_truncated() {
    // Error 100 at weight 7/16 carries round(43.75) = 44, so the neighbor
    // reaches exactly 128 and quantizes to 255; a truncated share (43)
    // would leave it at 127 and give 0.
    let mut img = gray(2, 1, vec![100, 84]);
    dither(&mut img);
    assert_eq!(img.into_data(), vec![0, 255]);
}

#[test]
fn negative_error_share_is_rounded_away_from_zero() {
    // Error -100 at weight 7/16 carries -44, so the neighbor drops to
    // exactly 127 and quantizes to 0; a share rounded toward zero (-43)
    // would leave it at 128 and give 255.
    let mut img = gray(2, 1, vec![155, 171]);
    dither(&mut img);
    assert_eq!(img.into_data(), vec![255, 0]);
}

#[test]
fn output_is_two_level_everywhere() {
    let data: Vec<u8> = (0..=255).collect();
    let mut img = gray(16, 16, data);
    dither(&mut img);
    for s in img.into_data() {
        assert!(s == 0 || s == 255);
    }

    let data: Vec<u8> = (0..120).map(|i| (i * 17 % 256) as u8).collect();
    let mut img = color(8, 5, data);
    dither(&mut img);
    for s in img.into_data() {
        assert!(s == 0 || s == 255);
    }
}

#[test]
fn channels_do_not_cross_influence() {
    // A color raster whose red channel matches one grayscale raster and
    // whose green channel matches another: each channel's result equals
    // the result of dithering that channel alone.
    let red = vec![10, 240, 130, 55, 190, 77];
    let green = vec![200, 3, 128, 127, 66, 250];
    let blue = vec![0, 255, 17, 230, 140, 115];
    let mut interleaved = Vec::new();
    for p in 0..6 {
        interleaved.push(red[p]);
        interleaved.push(green[p]);
        interleaved.push(blue[p]);
    }
    let mut c = color(3, 2, interleaved);
    dither(&mut c);
    let out = c.into_data();

    for (ch, plane) in [red, green, blue].into_iter().enumerate() {
        let mut g = gray(3, 2, plane);
        dither(&mut g);
        let plane_out = g.into_data();
        for p in 0..6 {
            assert_eq!(out[p * 3 + ch], plane_out[p]);
        }
    }
}

#[test]
fn raster_geometry_is_validated() {
    assert!(Raster::new(2, 2, Mode::Grayscale, vec![0; 4]).is_some());
    assert!(Raster::new(2, 2, Mode::Grayscale, vec![0; 5]).is_none());
    assert!(Raster::new(2, 2, Mode::Color, vec![0; 12]).is_some());
    assert!(Raster::new(2, 2, Mode::Color, vec![0; 4]).is_none());
    assert!(Raster::new(0, 9, Mode::Color, vec![]).is_some());
}

#[test]
fn raster_accessors() {
    let mut img = color(2, 1, vec![1, 2, 3, 4, 5, 6]);
    assert_eq!(img.width(), 2);
    assert_eq!(img.height(), 1);
    assert_eq!(img.mode(), Mode::Color);
    assert_eq!(img.channels(), 3);
    assert_eq!(img.get(1, 0, 2), 6);
    img.set(0, 0, 1, 42);
    assert_eq!(img.get(0, 0, 1), 42);
    assert_eq!(img.into_data(), vec![1, 42, 3, 4, 5, 6]);
}
