//! Encoded images and base64 text.

use faster_paddle::base64_text::{decode_base64, Base64Fault};
use faster_paddle::batch::{image_fault, read_image};
use faster_paddle::codec::{decode_rgb, encode_png, prepare_bytes, PreOpts, Prepare};
use faster_paddle::resize::ImageRgb;

const NO_STEPS: PreOpts = PreOpts {
    resize: false,
    denoise: false,
    deskew: false,
    binarize: false,
};

#[test]
fn base64_of_every_length() {
    assert_eq!(decode_base64("").unwrap(), b"");
    assert_eq!(decode_base64("Zg==").unwrap(), b"f");
    assert_eq!(decode_base64("Zm8=").unwrap(), b"fo");
    assert_eq!(decode_base64("Zm9v").unwrap(), b"foo");
    assert_eq!(decode_base64("Zm9vYg==").unwrap(), b"foob");
    assert_eq!(decode_base64("+/+/AP8=").unwrap(), [251, 255, 191, 0, 255]);
    let all: Vec<u8> = (0..=255).collect();
    let text = base64::Engine::encode(&base64::engine::general_purpose::STANDARD, &all);
    assert_eq!(decode_base64(&text).unwrap(), all);
}

#[test]
fn texts_that_are_no_base64() {
    assert_eq!(decode_base64("Zm 9v"), Err(Base64Fault::Symbol(2, b' ')));
    assert_eq!(decode_base64("Zm9v="), Err(Base64Fault::Symbol(4, b'=')));
    assert_eq!(decode_base64("Zg"), Err(Base64Fault::Padding));
    assert_eq!(decode_base64("Zg="), Err(Base64Fault::Padding));
    assert_eq!(decode_base64("Zh=="), Err(Base64Fault::LastSymbol(1, b'h')));
    assert_eq!(decode_base64("Zm9vZ"), Err(Base64Fault::Length(5)));
    assert!(decode_base64("Zg==Zg==").is_err());
    assert!(decode_base64("Zm9-").is_err());
    assert!(decode_base64("é===").is_err());
}

fn gray(w: usize, h: usize) -> ImageRgb {
    let mut data = Vec::new();
    for i in 0..w * h {
        let v = (i * 5 % 256) as u8;
        data.extend_from_slice(&[v, v, v]);
    }
    ImageRgb { w, h, data }
}

fn colour(w: usize, h: usize) -> ImageRgb {
    ImageRgb {
        w,
        h,
        data: (0..w * h * 3).map(|i| (i * 11 % 256) as u8).collect(),
    }
}

/// The colour type in a PNG header.
fn png_kind(file: &[u8]) -> u8 {
    assert_eq!(&file[..8], b"\x89PNG\r\n\x1a\n");
    file[25]
}

#[test]
fn gray_images_become_gray_files() {
    let img = gray(17, 9);
    let pixels = img.data.clone();
    let file = encode_png(img).unwrap();
    assert_eq!(png_kind(&file), 0);
    let back = decode_rgb(&file).unwrap();
    assert_eq!((back.w, back.h), (17, 9));
    assert_eq!(back.data, pixels);
}

#[test]
fn coloured_images_become_coloured_files() {
    let img = colour(6, 31);
    let pixels = img.data.clone();
    let file = encode_png(img).unwrap();
    assert_eq!(png_kind(&file), 2);
    let back = decode_rgb(&file).unwrap();
    assert_eq!((back.w, back.h), (6, 31));
    assert_eq!(back.data, pixels);
    // one coloured pixel is enough
    let mut img = gray(5, 5);
    img.data[74] ^= 1;
    assert_eq!(png_kind(&encode_png(img).unwrap()), 2);
}

#[test]
fn images_without_pixels_have_no_file() {
    let img = ImageRgb {
        w: 0,
        h: 4,
        data: Vec::new(),
    };
    let message = encode_png(img).unwrap_err();
    assert!(message.contains("Zero width"), "{message}");
    let img = ImageRgb {
        w: 4,
        h: 0,
        data: Vec::new(),
    };
    let message = encode_png(img).unwrap_err();
    assert!(message.contains("Zero height"), "{message}");
}

#[test]
fn bytes_that_are_no_image_are_refused() {
    assert!(decode_rgb(b"").is_err());
    assert!(decode_rgb(b"not an image at all").is_err());
    let mut file = encode_png(colour(8, 8)).unwrap();
    file.truncate(40);
    match decode_rgb(&file) {
        Ok(_) => panic!("decoded"),
        Err(message) => assert!(!message.is_empty()),
    }
}

#[test]
fn without_a_step_the_bytes_stay() {
    let bytes = b"whatever this is";
    match prepare_bytes(bytes, &NO_STEPS) {
        Ok(Prepare::Unchanged(out)) => assert_eq!(out, bytes),
        _ => panic!("changed"),
    }
    let opts = PreOpts {
        deskew: true,
        ..NO_STEPS
    };
    assert!(prepare_bytes(bytes, &opts).is_err());
    let file = encode_png(colour(4, 3)).unwrap();
    for i in 0..4 {
        let opts = PreOpts {
            resize: i == 0,
            denoise: i == 1,
            deskew: i == 2,
            binarize: i == 3,
        };
        assert!(opts.any());
        match prepare_bytes(&file, &opts) {
            Ok(Prepare::Process(img)) => assert_eq!((img.w, img.h), (4, 3)),
            _ => panic!("not decoded"),
        }
    }
    assert!(!NO_STEPS.any());
}

#[test]
fn large_images_read_back() {
    let (w, h) = (5000, 3600);
    let mut data = vec![9u8; w * h * 3];
    data[w * h * 3 - 1] = 200;
    let img = ImageRgb { w, h, data };
    let pixels = img.data.clone();
    let back = decode_rgb(&encode_png(img).unwrap()).unwrap();
    assert_eq!((back.w, back.h), (w, h));
    assert!(back.data == pixels);
}

#[test]
fn a_refused_image_is_an_error_with_its_number() {
    let good = encode_png(colour(5, 4)).unwrap();
    assert_eq!(read_image(4, 2, &good).unwrap().w, 5);
    for bad in [&b""[..], b"not an image", &good[..30]] {
        let message = match decode_rgb(bad) {
            Ok(_) => panic!("decoded"),
            Err(e) => e,
        };
        match read_image(4, 2, bad) {
            Ok(_) => panic!("decoded"),
            Err(e) => {
                assert_eq!(e, image_fault(4, 2, &message));
                assert!(e.starts_with("image 6: "));
            }
        }
    }
}
