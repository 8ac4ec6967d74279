use proply_rs::render::{
    downsample, encode_png, output_paths, parse_render_args, parse_size, parse_texture, RenderArgs,
    Texture,
};

fn args(list: &[&str]) -> Vec<String> {
    list.iter().map(|s| s.to_string()).collect()
}

#[test]
fn downsample_averages_each_block() {
    // A 4x2 RGB frame reduced to 2x1: each output pixel is the floor of the
    // mean of a 2x2 block, per channel.
    let mut src = Vec::new();
    for y in 0..2u8 {
        for x in 0..4u8 {
            src.extend_from_slice(&[10 * x + y, 100, 255 - x]);
        }
    }
    let out = downsample(&src, 4, 2, 2, 1);
    // Block 0: x in {0,1}, y in {0,1}: r = (0+10+1+11)/4 = 5, b = (255+254+255+254)/4 = 254.
    // Block 1: x in {2,3}: r = (20+30+21+31)/4 = 25, b = (253+252+253+252)/4 = 252.
    assert_eq!(out, vec![5, 100, 254, 25, 100, 252]);
}

#[test]
fn downsample_identity_and_truncating_blocks() {
    let src: Vec<u8> = (0..12).collect();
    assert_eq!(downsample(&src, 2, 2, 2, 2), src);
    // 3x1 to 2x1: blocks of one pixel, the third column is dropped.
    let src = vec![1, 2, 3, 4, 5, 6, 7, 8, 9];
    assert_eq!(downsample(&src, 3, 1, 2, 1), vec![1, 2, 3, 4, 5, 6]);
}

#[test]
fn render_arguments() {
    let a = parse_render_args(&args(&["--step", "build/out/p.step"])).unwrap();
    assert_eq!(
        a,
        RenderArgs {
            step: "build/out/p.step".to_string(),
            png: None,
            width: 1920,
            height: 1080,
            texture: Texture::Plain,
        }
    );
    let a = parse_render_args(&args(&[
        "--png", "o.png", "--size", "640x480", "--texture", "grid", "--step", "s.step",
    ]))
    .unwrap();
    assert_eq!(a.png, Some("o.png".to_string()));
    assert_eq!((a.width, a.height), (640, 480));
    assert_eq!(a.texture, Texture::Grid);
    assert_eq!(a.step, "s.step");
}

#[test]
fn render_argument_errors() {
    assert_eq!(
        parse_render_args(&args(&[])).unwrap_err(),
        "render-step: usage: render-step --step <file.step> [--png out.png]"
    );
    assert_eq!(
        parse_render_args(&args(&["--step", "a", "--texture", "zebra"])).unwrap_err(),
        "render-step: unknown texture 'zebra' (none|rings|stripes|grid)"
    );
    assert_eq!(
        parse_render_args(&args(&["--frob"])).unwrap_err(),
        "render-step: unknown argument --frob"
    );
    // A missing value at the end reads as empty.
    let a = parse_render_args(&args(&["--png"]));
    assert!(a.is_err());
    let a = parse_render_args(&args(&["--step"])).unwrap();
    assert_eq!(a.step, "");
}

#[test]
fn frame_size_and_texture_names() {
    assert_eq!(parse_size("800x600", 1920, 1080), (800, 600));
    assert_eq!(parse_size("800", 1920, 1080), (800, 1080));
    assert_eq!(parse_size("x600", 1920, 1080), (1920, 600));
    assert_eq!(parse_size("axb", 1920, 1080), (1920, 1080));
    assert_eq!(parse_size("10x20x30", 1, 1), (10, 20));
    // Only a lowercase `x` separates the sizes.
    assert_eq!(parse_size("8X6", 1920, 1080), (1920, 1080));
    assert_eq!(parse_texture("none"), Some(Texture::Plain));
    assert_eq!(parse_texture("rings"), Some(Texture::Rings));
    assert_eq!(parse_texture("stripes"), Some(Texture::Stripes));
    assert_eq!(parse_texture("Grid"), None);
}

#[test]
fn png_document_decodes_to_the_frame() {
    let rgb: Vec<u8> = vec![255, 0, 0, 0, 255, 0, 0, 0, 255, 10, 20, 30];
    let bytes = encode_png(2, 2, &rgb).expect("encodable");
    assert_eq!(&bytes[..8], &[137, 80, 78, 71, 13, 10, 26, 10]);
    assert_ne!(bytes, rgb);
    let decoder = png::Decoder::new(std::io::Cursor::new(bytes));
    let mut reader = decoder.read_info().unwrap();
    let mut buf = vec![0; reader.output_buffer_size()];
    let info = reader.next_frame(&mut buf).unwrap();
    assert_eq!((info.width, info.height), (2, 2));
    assert_eq!(&buf[..info.buffer_size()], &rgb[..]);
}

#[test]
fn png_refuses_mismatched_frames() {
    assert!(encode_png(0, 2, &[]).is_none());
    assert!(encode_png(2, 2, &[0; 11]).is_none());
    assert!(encode_png(1, 1, &[0; 6]).is_none());
    assert!(encode_png(1, 1, &[7, 8, 9]).is_some());
    assert!(encode_png(3, 1, &[0; 9]).is_some());
}

#[test]
fn companion_paths() {
    let a = parse_render_args(&args(&["--step", "build/out/p.step"])).unwrap();
    assert_eq!(
        output_paths(&a),
        ("build/out/p.png".to_string(), "build/out/p.ply".to_string())
    );
    let a = parse_render_args(&args(&["--step", "p", "--png", "x.png"])).unwrap();
    assert_eq!(output_paths(&a), ("x.png".to_string(), "p.ply".to_string()));
}
