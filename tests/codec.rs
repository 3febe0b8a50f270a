use std::io::Read;

use reader_proxy::codec::{candidate_codecs, compress_body, decode_content, pick_smallest, Codec};
use reader_proxy::error::ProxyError;

fn decompress(codec: &str, data: &[u8]) -> Vec<u8> {
    let mut out = Vec::new();
    match codec {
        "br" => {
            brotli::Decompressor::new(data, 4096).read_to_end(&mut out).unwrap();
        }
        "gzip" => {
            flate2::read::GzDecoder::new(data).read_to_end(&mut out).unwrap();
        }
        "deflate" => {
            flate2::read::DeflateDecoder::new(data).read_to_end(&mut out).unwrap();
        }
        "zstd" => {
            out = zstd::stream::decode_all(data).unwrap();
        }
        other => panic!("unexpected codec {}", other),
    }
    out
}

#[test]
fn test_compress_body() {
    let body_bytes = b"Hello, world!Hello, world!Hello, world!Hello, world!Hello, world!Hello, world!Hello, world!Hello, world!Hello, world!Hello, world!".to_vec();
    let mut compression_type = "gzip, deflate, br, zstd".to_string();
    let result = compress_body(&body_bytes, &mut compression_type).unwrap();
    println!("compression_type: {}", compression_type);
    assert_eq!(compression_type, "br");
    assert!(result.len() < body_bytes.len());
}

#[test]
fn candidates_follow_the_header_and_add_brotli() {
    assert_eq!(candidate_codecs(b"gzip, deflate"), vec![Codec::Gzip, Codec::Deflate, Codec::Brotli]);
    assert_eq!(candidate_codecs(b""), vec![Codec::Brotli]);
    assert_eq!(candidate_codecs(b" zstd ,br,zstd, identity"), vec![Codec::Zstd, Codec::Brotli]);
    assert_eq!(candidate_codecs(b"x-unknown"), vec![Codec::Brotli]);
}

#[test]
fn compressed_body_decodes_back_under_its_codec() {
    let body: Vec<u8> = (0..2000u32).map(|i| (i % 17) as u8 + b'a').collect();
    for header in ["", "gzip", "deflate", "zstd", "gzip, deflate, br, zstd", "identity"] {
        let mut codec = header.to_string();
        let out = compress_body(&body, &mut codec).unwrap();
        assert!(["br", "gzip", "deflate", "zstd"].contains(&codec.as_str()));
        assert_eq!(decompress(&codec, &out), body);
        assert!(out.len() <= body.len());
    }
}

#[test]
fn compression_is_deterministic() {
    let body = b"<html><body>same input, same winner</body></html>".repeat(20);
    let mut a = "gzip, zstd".to_string();
    let mut b = "gzip, zstd".to_string();
    let x = compress_body(&body, &mut a).unwrap();
    let y = compress_body(&body, &mut b).unwrap();
    assert_eq!(a, b);
    assert_eq!(x, y);
}

#[test]
fn unknown_only_header_falls_back_to_brotli() {
    let body = b"abcabcabcabcabcabcabcabcabcabc".to_vec();
    let mut codec = "compress".to_string();
    let out = compress_body(&body, &mut codec).unwrap();
    assert_eq!(codec, "br");
    assert_eq!(decompress("br", &out), body);
}

#[test]
fn smallest_ties_go_to_the_first() {
    assert_eq!(pick_smallest(&vec![vec![1, 2], vec![3], vec![4]]), 1);
    assert_eq!(pick_smallest(&vec![vec![1], vec![2, 3], vec![4]]), 0);
    assert_eq!(pick_smallest(&vec![vec![9, 9]]), 0);
}

#[test]
fn decode_content_undoes_each_coding() {
    let body = b"decoded page".to_vec();
    let mut gz = flate2::write::GzEncoder::new(Vec::new(), flate2::Compression::default());
    std::io::Write::write_all(&mut gz, &body).unwrap();
    let gz = gz.finish().unwrap();
    assert_eq!(decode_content(b"gzip", &gz).unwrap(), body);
    let mut br = "br".to_string();
    let brotli_bytes = compress_body(&body, &mut br).unwrap();
    assert_eq!(decode_content(b"br", &brotli_bytes).unwrap(), body);
    let mut df = flate2::write::DeflateEncoder::new(Vec::new(), flate2::Compression::default());
    std::io::Write::write_all(&mut df, &body).unwrap();
    assert_eq!(decode_content(b"deflate", &df.finish().unwrap()).unwrap(), body);
    assert_eq!(decode_content(b"", &body).unwrap(), body);
    assert_eq!(decode_content(b"identity", &body).unwrap(), body);
}

#[test]
fn decode_content_rejects_a_broken_stream() {
    assert_eq!(decode_content(b"gzip", b"not gzip at all"), Err(ProxyError::Decompression));
}

#[test]
fn each_codec_compresses_and_round_trips() {
    let body = b"the same line again and again; ".repeat(40);
    for (codec, name) in [
        (Codec::Brotli, "br"),
        (Codec::Zstd, "zstd"),
        (Codec::Gzip, "gzip"),
        (Codec::Deflate, "deflate"),
    ] {
        let out = reader_proxy::codec::compress_with(codec, &body).unwrap();
        assert_ne!(out, body, "{}", name);
        assert!(out.len() < body.len(), "{}", name);
        assert_eq!(decompress(name, &out), body, "{}", name);
        assert_eq!(codec.label_exec(), name);
    }
}
