use reader_proxy::speech::{
    direct_target, listen_payloads, new_request_id, socks5_route, speech_config_message,
    ssml_message, synthesis_url, timestamp_bytes, AudioCollector, AudioParts, Timestamp,
    CONFIG_PAYLOAD, Frame, PARTS, SSML_CLOSE, SSML_OPEN,
};
use reader_proxy::error::ProxyError;

#[test]
fn request_ids_are_32_upper_hex_digits_and_fresh() {
    let a = new_request_id();
    let b = new_request_id();
    assert_eq!(a.len(), 32);
    assert!(a.iter().all(|c| c.is_ascii_digit() || (b'A'..=b'F').contains(c)));
    assert_ne!(a, b);
}

#[test]
fn timestamps_are_formatted_to_the_millisecond() {
    let t = Timestamp { year: 2024, month: 3, day: 7, hour: 9, minute: 5, second: 1, millisecond: 42 };
    assert_eq!(timestamp_bytes(&t), b"2024-03-07T09:05:01.042Z".to_vec());
    let t = Timestamp { year: 987, month: 12, day: 31, hour: 23, minute: 59, second: 59, millisecond: 999 };
    assert_eq!(timestamp_bytes(&t), b"0987-12-31T23:59:59.999Z".to_vec());
    let t = Timestamp { year: -44, month: 3, day: 15, hour: 0, minute: 0, second: 0, millisecond: 0 };
    assert_eq!(timestamp_bytes(&t), b"-0044-03-15T00:00:00.000Z".to_vec());
}

#[test]
fn frames_carry_their_headers_and_payload() {
    let url = String::from_utf8(synthesis_url(b"ABC123")).unwrap();
    assert!(url.starts_with("wss://speech.platform.bing.com/"));
    assert!(url.ends_with("&X-ConnectionId=ABC123"));
    let cfg = String::from_utf8(speech_config_message(b"2024-01-01T00:00:00.000Z")).unwrap();
    assert_eq!(
        cfg,
        format!(
            "X-Timestamp: 2024-01-01T00:00:00.000Z\r\nContent-Type: application/json; charset=utf-8\r\nPath: speech.config\r\n\r\n{}",
            CONFIG_PAYLOAD
        )
    );
    let data = String::from_utf8(ssml_message(b"ID", b"TS", b"<speak/>")).unwrap();
    assert_eq!(data, "X-RequestId:ID\r\nContent-Type:application/ssml+xml\r\nX-Timestamp:TS\r\nPath:ssml\r\n\r\n<speak/>");
}

#[test]
fn audio_follows_the_marker_and_turn_end_stops() {
    let mut c = AudioCollector::new();
    assert_eq!(c.on_frame(Frame::Binary(b"\x00\x80X-RequestId:1\r\nPath:audio\r\n\xff\xfb\x01".to_vec())), Ok(false));
    assert_eq!(c.on_frame(Frame::Control), Ok(false));
    assert_eq!(c.on_frame(Frame::Binary(b"Path:audio\r\n\x02\x03".to_vec())), Ok(false));
    assert_eq!(c.on_frame(Frame::Text("Path:turn.start\r\n".to_string())), Ok(false));
    assert_eq!(c.on_frame(Frame::Text("X-RequestId:1\r\nPath:turn.end\r\n\r\n{}".to_string())), Ok(true));
    assert_eq!(c.finish(), vec![0xff, 0xfb, 0x01, 0x02, 0x03]);
}

#[test]
fn frame_without_marker_or_failed_read_fails_the_call() {
    let mut c = AudioCollector::new();
    assert_eq!(c.on_frame(Frame::Binary(b"no marker here".to_vec())), Err(ProxyError::Protocol));
    assert_eq!(c.on_frame(Frame::Failed), Err(ProxyError::Transport));
    assert_eq!(c.on_frame(Frame::Closed), Err(ProxyError::Transport));
}

#[test]
fn long_text_is_split_into_ordered_partitions() {
    let text: String = (0..25).map(|i| format!("<p>{}</p>", i)).collect();
    let parts = listen_payloads(&text);
    assert_eq!(parts.len(), PARTS);
    let bodies: Vec<String> = parts
        .iter()
        .map(|p| {
            let s = String::from_utf8(p.clone()).unwrap();
            assert!(s.starts_with(SSML_OPEN) && s.ends_with(SSML_CLOSE));
            s[SSML_OPEN.len()..s.len() - SSML_CLOSE.len()].to_string()
        })
        .collect();
    // 26 pieces (an empty one before the first paragraph), 2 per part, the rest last.
    assert_eq!(bodies[0], "0");
    assert_eq!(bodies[1], "12");
    assert_eq!(bodies[8], "1516");
    assert_eq!(bodies[9], "1718192021222324");
    assert_eq!(bodies.concat(), (0..25).map(|i| i.to_string()).collect::<String>());
}

#[test]
fn short_text_goes_to_the_last_partition() {
    let parts = listen_payloads("<p>a</p><p>b</p>");
    for p in &parts[..9] {
        assert_eq!(p, &format!("{}{}", SSML_OPEN, SSML_CLOSE).into_bytes());
    }
    assert_eq!(parts[9], format!("{}ab{}", SSML_OPEN, SSML_CLOSE).into_bytes());
}

#[test]
fn audio_is_assembled_in_partition_order() {
    let mut parts = AudioParts::new(4);
    assert_eq!(parts.assemble(), None);
    parts.fill(3, vec![4]);
    parts.fill(1, vec![2, 2]);
    parts.fill(0, vec![1]);
    assert_eq!(parts.assemble(), None);
    parts.fill(2, vec![]);
    assert_eq!(parts.assemble(), Some(vec![1, 2, 2, 4]));
    let mut other = AudioParts::new(4);
    for i in [2usize, 0, 3, 1] {
        let audio = match i {
            0 => vec![1],
            1 => vec![2, 2],
            2 => vec![],
            _ => vec![4],
        };
        other.fill(i, audio);
    }
    assert_eq!(other.assemble(), parts.assemble());
}

#[test]
fn socks5_is_the_only_proxy_scheme() {
    let target = "wss://speech.platform.bing.com/consumer/v1";
    let r = socks5_route("socks5://127.0.0.1:1080", target).unwrap();
    assert_eq!(r.proxy.host, "127.0.0.1");
    assert_eq!(r.proxy.port, 1080);
    assert_eq!(r.target.host, "speech.platform.bing.com");
    assert_eq!(r.target.port, 443);
    assert!(socks5_route("http://127.0.0.1:8080", target).is_none());
    assert!(socks5_route("socks5://127.0.0.1", target).is_none());
    assert!(socks5_route("not a url", target).is_none());
}

#[test]
fn direct_target_defaults_the_port() {
    let a = direct_target("wss://example.com:8443/x").unwrap();
    assert_eq!((a.host.as_str(), a.port), ("example.com", 8443));
    let a = direct_target("wss://example.com/x").unwrap();
    assert_eq!(a.port, 443);
    assert!(direct_target("nothing").is_none());
}

#[test]
fn current_timestamp_has_the_protocol_shape() {
    let t = String::from_utf8(reader_proxy::speech::timestamp_now()).unwrap();
    assert_eq!(t.len(), 24);
    assert!(t.ends_with('Z'));
    assert_eq!(&t[4..5], "-");
    assert_eq!(&t[10..11], "T");
    assert_eq!(&t[19..20], ".");
    assert!(t[..4].parse::<u32>().unwrap() >= 2024);
}

#[test]
fn ten_partitions_assemble_in_index_order_whatever_the_completion_order() {
    let audio: Vec<Vec<u8>> = (0..10u8).map(|i| vec![i; (i as usize % 3) + 1]).collect();
    let expected: Vec<u8> = audio.concat();
    for order in [
        [0usize, 1, 2, 3, 4, 5, 6, 7, 8, 9],
        [9, 8, 7, 6, 5, 4, 3, 2, 1, 0],
        [3, 7, 1, 9, 0, 5, 2, 8, 6, 4],
    ] {
        let mut parts = AudioParts::new(PARTS);
        for i in order {
            parts.fill(i, audio[i].clone());
        }
        assert_eq!(parts.assemble(), Some(expected.clone()));
    }
}

#[test]
fn audio_response_is_mpeg_in_order() {
    let mut parts = AudioParts::new(3);
    parts.fill(2, vec![3]);
    parts.fill(0, vec![1]);
    assert!(reader_proxy::speech::audio_response(&parts).is_none());
    parts.fill(1, vec![2]);
    let r = reader_proxy::speech::audio_response(&parts).unwrap();
    assert_eq!(r.body, vec![1, 2, 3]);
    assert_eq!(r.headers.len(), 1);
    assert_eq!(r.headers[0].name, b"content-type".to_vec());
    assert_eq!(r.headers[0].value, b"audio/mpeg".to_vec());
}
