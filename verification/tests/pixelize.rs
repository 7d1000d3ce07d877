use farbfeld::error::Error;
use farbfeld::image::Image;
use farbfeld::pixel::Pixel;

fn uniform_image(width: u32, height: u32, p: Pixel) -> Image {
    let count: usize = (width as usize) * (height as usize);
    Image { width, height, pixels: vec![p; count] }
}

#[test]
fn factor_zero_is_rejected() {
    let img = Image::new(4, 4);
    assert_eq!(img.pixelize(0).unwrap_err(), Error::NonExactMultiple);
}

#[test]
fn non_dividing_factor_is_rejected() {
    let img = Image::new(4, 4);
    assert_eq!(img.pixelize(3).unwrap_err(), Error::NonExactMultiple);

    let wide = Image::new(6, 4);
    assert_eq!(wide.pixelize(4).unwrap_err(), Error::NonExactMultiple);

    let tall = Image::new(4, 6);
    assert_eq!(tall.pixelize(4).unwrap_err(), Error::NonExactMultiple);
}

#[test]
fn uniform_image_keeps_its_pixel() {
    let p = Pixel { r: 123, g: 4567, b: 789, a: 60001 };
    let img = uniform_image(4, 4, p);
    for factor in [1u32, 2, 4] {
        let out = img.pixelize(factor).unwrap();
        assert_eq!(out.width, 4 / factor);
        assert_eq!(out.height, 4 / factor);
        assert_eq!(out.pixels.len(), ((4 / factor) * (4 / factor)) as usize);
        for q in out.pixels.iter() {
            assert_eq!(*q, p);
        }
    }
}

#[test]
fn column_ramp_averages_by_blocks() {
    // Each pixel's r channel is its column index times 1000.
    let mut pixels: Vec<Pixel> = Vec::new();
    for _y in 0..4u32 {
        for x in 0..4u32 {
            pixels.push(Pixel { r: (x * 1000) as u16, g: 0, b: 0, a: 65535 });
        }
    }
    let img = Image { width: 4, height: 4, pixels };
    let out = img.pixelize(2).unwrap();
    assert_eq!(out.width, 2);
    assert_eq!(out.height, 2);
    for y in 0..2usize {
        assert_eq!(out.pixels[y * 2].r, 500);
        assert_eq!(out.pixels[1 + y * 2].r, 2500);
    }
    for q in out.pixels.iter() {
        assert_eq!(q.g, 0);
        assert_eq!(q.b, 0);
        assert_eq!(q.a, 65535);
    }
}

#[test]
fn averages_truncate_toward_zero() {
    // One 2x2 block whose r channel sums to 7: the floor average is 1.
    let pixels = vec![
        Pixel { r: 1, g: 0, b: 0, a: 65535 },
        Pixel { r: 2, g: 0, b: 0, a: 65535 },
        Pixel { r: 2, g: 0, b: 0, a: 65535 },
        Pixel { r: 2, g: 0, b: 0, a: 65535 },
    ];
    let img = Image { width: 2, height: 2, pixels };
    let out = img.pixelize(2).unwrap();
    assert_eq!(out.pixels.len(), 1);
    assert_eq!(out.pixels[0], Pixel { r: 1, g: 0, b: 0, a: 65535 });
}

#[test]
fn whole_image_merge_averages_everything() {
    let pixels = vec![
        Pixel { r: 0, g: 10, b: 100, a: 1000 },
        Pixel { r: 1, g: 20, b: 200, a: 2000 },
        Pixel { r: 2, g: 30, b: 300, a: 3000 },
        Pixel { r: 5, g: 40, b: 400, a: 4000 },
    ];
    let img = Image { width: 2, height: 2, pixels };
    let out = img.pixelize(2).unwrap();
    assert_eq!(out.width, 1);
    assert_eq!(out.height, 1);
    assert_eq!(out.pixels[0], Pixel { r: 2, g: 25, b: 250, a: 2500 });
}

#[test]
fn pixelized_image_round_trips_through_the_codec() {
    let p = Pixel { r: 40000, g: 30000, b: 20000, a: 10000 };
    let img = uniform_image(2, 2, p);
    let out = img.pixelize(2).unwrap();
    let back = Image::decode(&out.encode()).unwrap();
    assert_eq!(back.width, 1);
    assert_eq!(back.height, 1);
    assert_eq!(back.pixels, vec![p]);
}
