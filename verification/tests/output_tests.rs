use serverbrowser::config::OutputMode;
use serverbrowser::output::{b64, emit, emit_blocks, emit_kitty, emit_sixel, Frame};

#[test]
fn b64_roundtrip_simple() {
    assert_eq!(b64(b"Man"), "TWFu");
    assert_eq!(b64(b"Ma"), "TWE=");
    assert_eq!(b64(b"M"), "TQ==");
    assert_eq!(b64(b""), "");
}

#[test]
fn b64_longer_input() {
    assert_eq!(b64(b"hello world"), "aGVsbG8gd29ybGQ=");
    assert_eq!(b64(&[0xff, 0xfe, 0xfd, 0x00]), "//79AA==");
}

#[test]
fn kitty_starts_with_g() {
    let f = Frame::from_rgba(1, 1, vec![255, 0, 0, 255]);
    let mut out = String::new();
    emit_kitty(&mut out, &f);
    let s = out;
    assert!(s.starts_with("\x1b_G"));
    assert!(s.ends_with("\x1b\\"));
}

#[test]
fn kitty_exact() {
    let f = Frame::from_rgba(1, 1, vec![255, 0, 0, 255]);
    let mut out = String::new();
    emit_kitty(&mut out, &f);
    assert_eq!(out, "\x1b_Ga=T,f=32,s=1,v=1,m=0;/wAA/w==\x1b\\");
}

#[test]
fn blocks_has_reset() {
    let f = Frame::from_rgba(2, 2, vec![0; 16]);
    let mut out = String::new();
    emit_blocks(&mut out, &f);
    let s = out;
    assert!(s.contains("\x1b[0m"));
}

#[test]
fn blocks_exact_odd_height() {
    let f = Frame::from_rgba(1, 1, vec![1, 2, 3, 4]);
    let mut out = String::new();
    emit_blocks(&mut out, &f);
    assert_eq!(out, "\x1b[38;2;1;2;3m\x1b[48;2;1;2;3m\u{2580}\x1b[0m\n");
}

#[test]
fn sixel_small() {
    let f = Frame::from_rgba(1, 2, vec![255, 255, 255, 255, 0, 0, 0, 255]);
    let mut out = String::new();
    emit_sixel(&mut out, &f);
    assert!(out.starts_with("\x1bPq#0;2;0;0;0#1;2;0;0;33"));
    assert!(out.ends_with("#21#21#0\u{3}$-\x1b\\"));
}

#[test]
fn emit_text_is_empty() {
    let f = Frame::from_rgba(1, 1, vec![1, 2, 3, 4]);
    let mut out = String::new();
    emit(&mut out, &f, OutputMode::Text);
    assert_eq!(out, "");
}

const SIXEL_PALETTE: &str = "#0;2;0;0;0#1;2;0;0;33#2;2;0;33;0#3;2;0;33;33#4;2;33;0;0#5;2;33;0;33#6;2;33;33;0#7;2;33;33;33#8;2;0;0;66#9;2;0;66;0#10;2;0;66;66#11;2;66;0;0#12;2;66;0;66#13;2;66;66;0#14;2;66;66;66#15;2;0;0;100#16;2;0;100;0#17;2;0;100;100#18;2;100;0;0#19;2;100;0;100#20;2;100;100;0#21;2;100;100;100";

#[test]
fn sixel_palette_has_22_colors() {
    let f = Frame::from_rgba(0, 0, vec![]);
    let mut out = String::new();
    emit_sixel(&mut out, &f);
    assert_eq!(out, format!("\x1bPq{}\x1b\\", SIXEL_PALETTE));
}

#[test]
fn sixel_one_black_pixel() {
    let f = Frame::from_rgba(1, 1, vec![0, 0, 0, 255]);
    let mut out = String::new();
    emit_sixel(&mut out, &f);
    assert_eq!(out, format!("\x1bPq{}#0\u{1}$-\x1b\\", SIXEL_PALETTE));
}

#[test]
fn kitty_chunks_of_4096() {
    let one = Frame::from_rgba(768, 1, vec![0; 3072]);
    let mut out = String::new();
    emit_kitty(&mut out, &one);
    assert_eq!(out, format!("\x1b_Ga=T,f=32,s=768,v=1,m=0;{}\x1b\\", "A".repeat(4096)));
    let two = Frame::from_rgba(2, 2, vec![0; 3075]);
    let mut out = String::new();
    emit_kitty(&mut out, &two);
    assert_eq!(
        out,
        format!(
            "\x1b_Ga=T,f=32,s=2,v=2,m=1;{}\x1b\\\x1b_Gm=0;AAAA\x1b\\",
            "A".repeat(4096)
        )
    );
}

#[test]
fn b64_splits_at_groups() {
    let data = [1u8, 2, 3, 250, 251, 252, 7, 8];
    assert_eq!(b64(&data), format!("{}{}", b64(&data[..3]), b64(&data[3..])));
    assert_eq!(b64(&data), format!("{}{}", b64(&data[..6]), b64(&data[6..])));
    assert_eq!(b64(&data), "AQID+vv8Bwg=");
}
