use ctl460_rust::wintab::info::{category_info, info, InfoReply};
use ctl460_rust::wintab::session::{Data, Record};
use ctl460_rust::wintab::words::default_words;

const SCREEN: (i32, i32) = (1920, 1080);

fn wide(s: &str) -> Vec<u8> {
    s.encode_utf16().chain(Some(0)).flat_map(u16::to_le_bytes).collect()
}

fn uint(n: u32) -> InfoReply {
    InfoReply::Bytes(n.to_le_bytes().to_vec())
}

#[test]
fn interface_information() {
    assert_eq!(info(1, 1, true, 250, SCREEN, None), InfoReply::Bytes(wide("OpenCTL 460 WinTab")));
    assert_eq!(info(1, 1, false, 250, SCREEN, None), InfoReply::Text("OpenCTL 460 WinTab".to_string()));
    assert_eq!(info(1, 2, true, 250, SCREEN, None), InfoReply::Bytes(vec![0x04, 0x01]));
    assert_eq!(info(1, 6, true, 250, SCREEN, None), uint(64));
    assert_eq!(info(1, 8, true, 250, SCREEN, None), uint(244));
    assert_eq!(info(1, 11, true, 250, SCREEN, None), InfoReply::Bytes(vec![]));
    assert_eq!(category_info(1, true, 250, SCREEN, None).len(), 10);
}

#[test]
fn device_information() {
    let mut axis = Vec::new();
    for v in [0u32, 14720, 2, 1000 << 16] {
        axis.extend(v.to_le_bytes());
    }
    assert_eq!(info(100, 12, true, 250, SCREEN, None), InfoReply::Bytes(axis));
    assert_eq!(info(100, 5, true, 133, SCREEN, None), uint(133));
    let InfoReply::Bytes(orientation) = info(100, 17, true, 250, SCREEN, None) else { panic!() };
    assert_eq!(orientation.len(), 48);
    assert_eq!(orientation[16..20], (-900i32).to_le_bytes());
    assert_eq!(info(100, 19, false, 250, SCREEN, None), InfoReply::Text("CTL460Studio".to_string()));
}

#[test]
fn default_contexts_without_a_session() {
    let words = default_words(250, 1920, 1080);
    let InfoReply::Bytes(context) = info(3, 0, true, 250, SCREEN, None) else { panic!() };
    assert_eq!(context.len(), 212);
    assert_eq!(context[..22], wide("OpenCTL 460")[..22]);
    assert_eq!(context[80..84], words[0].to_le_bytes());
    assert_eq!(info(3, 0, false, 250, SCREEN, None), InfoReply::Context("OpenCTL 460".to_string(), words));
    assert_eq!(info(4, 2, true, 250, SCREEN, None), uint(words[0] | 1));
    assert_eq!(info(4, 19, true, 250, SCREEN, None), uint(0));
    assert_eq!(info(4, 22, true, 250, SCREEN, None), uint(1920));
    assert_eq!(info(400, 1, false, 250, SCREEN, None), InfoReply::Name("OpenCTL 460".to_string()));
    assert_eq!(category_info(3, true, 250, SCREEN, None).len(), 1);
}

#[test]
fn session_status_and_defaults() {
    let mut d = Data::zeroed();
    let mut name = [0u16; 40];
    for (i, u) in "Tablet".encode_utf16().enumerate() {
        name[i] = u;
    }
    d.contexts[0] = Record { id: 1, name, words: default_words(250, 1920, 1080), ..Record::empty() };
    d.contexts[5] = Record { id: 9, enabled: 1, words: default_words(250, 1920, 1080), ..Record::empty() };
    assert_eq!(info(2, 1, true, 200, SCREEN, Some(&d)), uint(1));
    assert_eq!(info(2, 3, true, 200, SCREEN, Some(&d)), uint(200));
    assert_eq!(info(2, 4, true, 200, SCREEN, Some(&d)), uint(0x17ff));
    assert_eq!(info(2, 1, true, 200, SCREEN, None), InfoReply::Bytes(vec![]));
    assert_eq!(info(3, 1, false, 200, SCREEN, Some(&d)), InfoReply::Name("Tablet".to_string()));
    assert_eq!(info(3, 7, true, 200, SCREEN, Some(&d)), uint(200));
}

#[test]
fn cursor_information() {
    assert_eq!(info(201, 1, false, 250, SCREEN, None), InfoReply::Text("Eraser".to_string()));
    assert_eq!(info(200, 7, true, 250, SCREEN, None), InfoReply::Bytes((0..32).collect()));
    let InfoReply::Bytes(map) = info(200, 8, true, 250, SCREEN, None) else { panic!() };
    assert_eq!(map[..3], [1, 4, 0]);
    assert_eq!(info(201, 20, true, 250, SCREEN, None), uint(0x080a));
    assert_eq!(info(200, 6, true, 250, SCREEN, None), InfoReply::Bytes(wide("Tip\0Barrel\0")));
    let InfoReply::Bytes(response) = info(200, 11, true, 250, SCREEN, None) else { panic!() };
    assert_eq!(response.len(), 1024);
    assert_eq!(response[1020..], 4097u32.to_le_bytes());
}
