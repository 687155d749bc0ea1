use mandelbrot::Image24Bits;

/// Escape-time evaluation of the Mandelbrot recurrence `z = z*z + c` for
/// `c = re + im*i`, starting at the origin: the iteration count at which the
/// squared magnitude first exceeds `4.0`, or `0` when it never does within
/// `254` iterations.
fn mandelbrot_intensity(re: f64, im: f64) -> u8 {
    let mut zr: f64 = 0.0;
    let mut zi: f64 = 0.0;
    for i in 1..255u32 {
        if zr * zr + zi * zi > 4.0 {
            return i as u8;
        }
        let next_r = zr * zr - zi * zi + re;
        let next_i = 2.0 * zr * zi + im;
        zr = next_r;
        zi = next_i;
    }
    0
}

#[test]
fn origin_never_escapes() {
    assert_eq!(mandelbrot_intensity(0.0, 0.0), 0);
}

#[test]
fn far_point_escapes_quickly() {
    let v = mandelbrot_intensity(2.0, 2.0);
    assert!(v > 0);
    assert!(v <= 4);
}

#[test]
fn end_to_end_render_64() {
    let size: usize = 64;
    let re_start: f64 = -2.0;
    let re_end: f64 = 1.0;
    let im_start: f64 = -1.0;
    let im_end: f64 = 1.0;

    let mut image = Image24Bits::new(size, size, (0, 0, 0));
    for i in 0..size {
        for j in 0..size {
            let re = re_start + (i as f64 / size as f64) * (re_end - re_start);
            let im = im_start + (j as f64 / size as f64) * (im_end - im_start);
            let v = mandelbrot_intensity(re, im);
            image.set_pixel(i, j, (v, v, v));
        }
    }

    let text = String::from_utf8(image.encode()).unwrap();
    let lines: Vec<&str> = text.split('\n').collect();
    assert_eq!(lines[0], "P3");
    assert!(lines[1].starts_with('#'));
    assert_eq!(lines[2], "64 64");
    assert_eq!(lines[3], "255");
    // Four header lines, 64 * 64 pixel lines, and the empty tail after the
    // final line break.
    assert_eq!(lines.len(), 4 + 4096 + 1);
    assert_eq!(lines[4 + 4096], "");
    for k in 0..4096 {
        let parts: Vec<&str> = lines[4 + k].split(' ').collect();
        assert_eq!(parts.len(), 3);
        for part in parts {
            let channel: u32 = part.parse().unwrap();
            assert!(channel <= 255);
        }
    }
}
