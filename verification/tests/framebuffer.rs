use lumen::display::Frame;
use lumen::gfx::blur::{box_blur_region, run_blur};
use lumen::gfx::canvas::Canvas;
use lumen::gfx::color::Color;
use lumen::gfx::framebuffer::{FrameBufferInfo, Framebuffer, PixelFormat};
use lumen::gfx::rect::Rect;
use lumen::gfx::shapes::fill_rect;

fn info(width: usize, height: usize, format: PixelFormat, bpp: usize) -> FrameBufferInfo {
    FrameBufferInfo { byte_len: width * height * bpp, width, height, pixel_format: format, bytes_per_pixel: bpp, stride: width }
}

#[test]
fn rgb_pixels_store_channels_in_order() {
    let mut buf = vec![0u8; 4 * 2 * 3];
    {
        let mut fb = Framebuffer::from_raw(&mut buf, info(4, 2, PixelFormat::Rgb, 3));
        assert_eq!(fb.width(), 4);
        assert_eq!(fb.height(), 2);
        assert_eq!(fb.bytes_per_pixel(), 3);
        assert_eq!(fb.format(), PixelFormat::Rgb);
        fb.put_pixel(1, 0, Color::rgba(10, 20, 30, 40));
        assert_eq!(fb.read_pixel(1, 0), Color::rgb(10, 20, 30));
        assert_eq!(fb.read_pixel(0, 0), Color::rgb(0, 0, 0));
        assert_eq!(fb.row(0), &[0, 0, 0, 10, 20, 30, 0, 0, 0, 0, 0, 0]);
    }
    assert_eq!(&buf[3..6], &[10, 20, 30]);
}

#[test]
fn bgr_pixels_store_channels_reversed() {
    let mut buf = vec![0u8; 2 * 1 * 4];
    {
        let mut fb = Framebuffer::from_raw(&mut buf, info(2, 1, PixelFormat::Bgr, 4));
        fb.put_pixel(1, 0, Color::rgb(10, 20, 30));
        assert_eq!(fb.read_pixel(1, 0), Color::rgb(10, 20, 30));
    }
    assert_eq!(buf, vec![0, 0, 0, 0, 30, 20, 10, 0]);
}

#[test]
fn grey_pixels_keep_the_luma() {
    let mut buf = vec![0u8; 2];
    {
        let mut fb = Framebuffer::from_raw(&mut buf, info(2, 1, PixelFormat::U8, 1));
        fb.put_pixel(0, 0, Color::rgb(10, 20, 30));
        // (10 * 30 + 20 * 59 + 30 * 11) / 100
        assert_eq!(fb.read_pixel(0, 0), Color::rgb(18, 18, 18));
    }
    assert_eq!(buf, vec![18, 0]);
}

#[test]
fn unknown_formats_are_guessed_as_bgr_when_three_bytes_fit() {
    let unknown = PixelFormat::Unknown { red_position: 0, green_position: 8, blue_position: 16 };
    let mut wide = vec![0u8; 4];
    {
        let mut fb = Framebuffer::from_raw(&mut wide, info(1, 1, unknown, 4));
        fb.put_pixel(0, 0, Color::rgb(1, 2, 3));
        assert_eq!(fb.read_pixel(0, 0), Color::rgb(1, 2, 3));
    }
    assert_eq!(wide, vec![3, 2, 1, 0]);
    let mut narrow = vec![7u8; 2];
    {
        let mut fb = Framebuffer::from_raw(&mut narrow, info(1, 1, unknown, 2));
        fb.put_pixel(0, 0, Color::rgb(1, 2, 3));
        assert_eq!(fb.read_pixel(0, 0), Color::rgb(0, 0, 0));
    }
    assert_eq!(narrow, vec![7, 7]);
}

#[test]
fn short_buffer_shows_only_backed_rows() {
    let mut buf = vec![0u8; 20];
    let fb = Framebuffer::from_raw(&mut buf, info(4, 2, PixelFormat::Rgb, 3));
    assert_eq!(fb.height(), 1);
    assert_eq!(fb.clip(), Rect::new(0, 0, 4, 1));
    let mut none = vec![0u8; 4];
    let empty = Framebuffer::from_raw(&mut none, FrameBufferInfo {
        byte_len: 0, width: 0, height: 3, pixel_format: PixelFormat::Rgb, bytes_per_pixel: 3, stride: 0,
    });
    assert_eq!(empty.height(), 0);
}

#[test]
fn reads_outside_the_buffer_are_black() {
    let mut buf = vec![255u8; 3];
    let fb = Framebuffer::from_raw(&mut buf, info(1, 1, PixelFormat::Rgb, 3));
    assert_eq!(fb.read_pixel(0, 0), Color::rgb(255, 255, 255));
    assert_eq!(fb.read_pixel(1, 0), Color::rgb(0, 0, 0));
    assert_eq!(fb.read_pixel(0, 5), Color::rgb(0, 0, 0));
}

#[test]
fn blend_pixel_composites_over_the_stored_colour() {
    let mut buf = vec![0u8; 3];
    let mut fb = Framebuffer::from_raw(&mut buf, info(1, 1, PixelFormat::Rgb, 3));
    fb.put_pixel(0, 0, Color::rgb(0, 0, 255));
    fb.blend_pixel(0, 0, Color::rgba(200, 100, 50, 128));
    assert_eq!(fb.read_pixel(0, 0), Color::rgb(100, 50, 152));
    fb.blend_pixel(0, 0, Color::rgba(1, 1, 1, 0));
    assert_eq!(fb.read_pixel(0, 0), Color::rgb(100, 50, 152));
}

#[test]
fn fill_row_blends_and_clips() {
    let mut buf = vec![0u8; 4 * 3];
    let mut fb = Framebuffer::from_raw(&mut buf, info(4, 1, PixelFormat::Bgr, 3));
    fb.set_clip(Rect::new(1, 0, 3, 1));
    fb.fill_row(0, 0, 4, Color::rgba(200, 100, 50, 128));
    assert_eq!(fb.read_pixel(0, 0), Color::rgb(0, 0, 0));
    assert_eq!(fb.read_pixel(1, 0), Color::rgb(100, 50, 25));
    assert_eq!(fb.read_pixel(2, 0), Color::rgb(100, 50, 25));
    assert_eq!(fb.read_pixel(3, 0), Color::rgb(0, 0, 0));
    fb.fill_row(0, 0, 4, Color::rgb(9, 9, 9));
    assert_eq!(fb.read_pixel(1, 0), Color::rgb(9, 9, 9));
    assert_eq!(fb.read_pixel(3, 0), Color::rgb(0, 0, 0));
}

#[test]
fn fill_row_on_grey_goes_through_luma() {
    let mut buf = vec![0u8; 2];
    let mut fb = Framebuffer::from_raw(&mut buf, info(2, 1, PixelFormat::U8, 1));
    fb.fill_row(0, 0, 2, Color::rgb(100, 100, 100));
    assert_eq!(fb.read_pixel(1, 0), Color::rgb(100, 100, 100));
}

#[test]
fn blend_row_fades_and_skips_transparent() {
    let mut buf = vec![0u8; 3 * 3];
    let mut fb = Framebuffer::from_raw(&mut buf, info(3, 1, PixelFormat::Rgb, 3));
    let src = [Color::rgb(200, 100, 50), Color::rgba(255, 255, 255, 0), Color::rgb(10, 20, 30)];
    fb.blend_row(0, 0, &src, 128);
    assert_eq!(fb.read_pixel(0, 0), Color::rgb(100, 50, 25));
    assert_eq!(fb.read_pixel(1, 0), Color::rgb(0, 0, 0));
    fb.blend_row(0, 0, &src, 255);
    assert_eq!(fb.read_pixel(2, 0), Color::rgb(10, 20, 30));
}

#[test]
fn clear_paints_the_clip() {
    let mut buf = vec![0u8; 3 * 2 * 3];
    let mut fb = Framebuffer::from_raw(&mut buf, info(3, 2, PixelFormat::Rgb, 3));
    fb.set_clip(Rect::new(0, 1, 9, 9));
    fb.clear(Color::rgb(5, 6, 7));
    assert_eq!(fb.read_pixel(0, 0), Color::rgb(0, 0, 0));
    assert_eq!(fb.read_pixel(2, 1), Color::rgb(5, 6, 7));
}

#[test]
fn shapes_draw_onto_the_framebuffer() {
    let mut buf = vec![0u8; 4 * 4 * 3];
    let mut fb = Framebuffer::from_raw(&mut buf, info(4, 4, PixelFormat::Rgb, 3));
    fill_rect(&mut fb, 1, 1, 2, 2, Color::rgb(1, 2, 3));
    assert_eq!(fb.read_pixel(1, 1), Color::rgb(1, 2, 3));
    assert_eq!(fb.read_pixel(3, 3), Color::rgb(0, 0, 0));
}

#[test]
fn row_mut_writes_through() {
    let mut buf = vec![0u8; 2 * 2 * 3];
    {
        let mut fb = Framebuffer::from_raw(&mut buf, info(2, 2, PixelFormat::Rgb, 3));
        let row = fb.row_mut(1);
        assert_eq!(row.len(), 6);
        row[0] = 42;
        assert_eq!(fb.read_pixel(0, 1), Color::rgb(42, 0, 0));
    }
    assert_eq!(buf[6], 42);
}

#[test]
fn run_blur_averages_a_sliding_box() {
    assert_eq!(run_blur(&[0, 0, 255, 0, 0], 1), vec![0, 85, 85, 85, 0]);
    assert_eq!(run_blur(&[10, 20, 30], 0), vec![10, 20, 30]);
    assert_eq!(run_blur(&[0, 0, 255, 0, 0], 1000), vec![51, 51, 51, 51, 51]);
    assert_eq!(run_blur(&[9, 250], 1), vec![129, 129]);
    assert!(run_blur(&[], 3).is_empty());
}

#[test]
fn run_blur_cuts_the_box_at_the_ends() {
    // Index 0 averages [0, 2], index 4 averages [2, 4].
    assert_eq!(run_blur(&[30, 60, 90, 120, 150], 2), vec![60, 75, 90, 105, 120]);
}

#[test]
fn box_blur_spreads_a_bright_pixel() {
    let mut buf = vec![0u8; 5 * 3];
    buf[6] = 255;
    buf[7] = 255;
    buf[8] = 255;
    let mut fb = Framebuffer::from_raw(&mut buf, info(5, 1, PixelFormat::Rgb, 3));
    box_blur_region(&mut fb, 0, 0, 5, 1, 1, 1);
    let got: Vec<u8> = (0..5).map(|x| fb.read_pixel(x, 0).r).collect();
    assert_eq!(got, vec![0, 85, 85, 85, 0]);
}

#[test]
fn box_blur_leaves_things_alone_without_radius_or_region() {
    let mut buf = vec![0u8; 3 * 3];
    buf[3] = 255;
    let mut fb = Framebuffer::from_raw(&mut buf, info(3, 1, PixelFormat::Rgb, 3));
    box_blur_region(&mut fb, 0, 0, 3, 1, 0, 2);
    box_blur_region(&mut fb, 0, 0, 3, 1, 1, 0);
    box_blur_region(&mut fb, 0, 0, 0, 1, 1, 1);
    box_blur_region(&mut fb, 10, 0, 3, 1, 1, 1);
    assert_eq!(fb.read_pixel(1, 0), Color::rgb(255, 0, 0));
}

#[test]
fn box_blur_runs_down_columns_too() {
    let mut buf = vec![0u8; 3 * 3];
    buf[3] = 90;
    let mut fb = Framebuffer::from_raw(&mut buf, info(1, 3, PixelFormat::U8, 3));
    box_blur_region(&mut fb, -4, -4, 10, 10, 1, 1);
    let got: Vec<u8> = (0..3).map(|y| fb.read_pixel(0, y).r).collect();
    assert_eq!(got, vec![45, 30, 45]);
}

#[test]
fn glass_backdrop_lays_in_the_blurred_wallpaper() {
    let mut back = vec![0u8; 4 * 4 * 3];
    let mut wall = vec![0u8; 4 * 4 * 3];
    {
        let target = Framebuffer::from_raw(&mut back, info(4, 4, PixelFormat::Rgb, 3));
        let mut blurred = Framebuffer::from_raw(&mut wall, info(4, 4, PixelFormat::Rgb, 3));
        blurred.clear(Color::rgb(200, 150, 100));
        let mut frame = Frame::new(target, blurred);
        assert_eq!(frame.clip(), Rect::new(0, 0, 4, 4));
        frame.glass_backdrop(1, 1, 0, 2, 0);
        assert_eq!(frame.read_pixel(1, 1), Color::rgb(0, 0, 0));
        frame.glass_backdrop(1, 1, 2, 2, 0);
        assert_eq!(frame.read_pixel(1, 1), Color::rgb(200, 150, 100));
        assert_eq!(frame.read_pixel(2, 2), Color::rgb(200, 150, 100));
        assert_eq!(frame.read_pixel(0, 0), Color::rgb(0, 0, 0));
        assert_eq!(frame.read_pixel(3, 3), Color::rgb(0, 0, 0));
    }
}

#[test]
fn run_blur_leaves_a_flat_line_flat() {
    assert_eq!(run_blur(&[7; 10], 3), vec![7; 10]);
    assert_eq!(run_blur(&[200; 3], 0), vec![200; 3]);
}

#[test]
fn glass_backdrop_respects_the_frame_clip() {
    let mut back = vec![0u8; 4 * 4 * 3];
    let mut wall = vec![0u8; 4 * 4 * 3];
    let target = Framebuffer::from_raw(&mut back, info(4, 4, PixelFormat::Rgb, 3));
    let mut blurred = Framebuffer::from_raw(&mut wall, info(4, 4, PixelFormat::Rgb, 3));
    blurred.clear(Color::rgb(9, 9, 9));
    let mut frame = Frame::new(target, blurred);
    frame.set_clip(Rect::new(0, 0, 2, 9));
    assert_eq!(frame.clip(), Rect::new(0, 0, 2, 4));
    frame.glass_backdrop(0, 0, 4, 4, 0);
    assert_eq!(frame.read_pixel(1, 3), Color::rgb(9, 9, 9));
    assert_eq!(frame.read_pixel(2, 0), Color::rgb(0, 0, 0));
}
