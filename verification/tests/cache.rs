//! The session cache on concrete states: the round trip, and safety against
//! absent, truncated or corrupt records.

use site_builder::cache::{decode_state, encode_state, state_from_cache};
use site_builder::entries::{AppState, Color, Fonts, Image, Meta, Project, Website};

fn sample_state() -> AppState {
    let mut p = Project::default();
    p.id = 0;
    p.path = "/home/me/site/portfolio/straße".to_string();
    p.meta = Meta { title: "Straße — ein Projekt".to_string() };
    p.description = "free text\nwith lines".to_string();
    p.images = vec![
        Image { position: 0, path: "/home/me/site/portfolio/straße/img/a.png".to_string() },
        Image { position: 1, path: "/home/me/site/portfolio/straße/img/b.png".to_string() },
    ];
    AppState {
        source: "/home/me/site".to_string(),
        website: Website {
            title: "my site".to_string(),
            portfolio: vec![p],
            about: "about me".to_string(),
            image: "/home/me/site/me.jpg".to_string(),
            fonts: Fonts {
                bold: Some("/home/me/site/fonts/semibold.ttf".to_string()),
                normal: None,
            },
            accent_color: Color { red: 10, green: 20, blue: 30, alpha: 255 },
        },
    }
}

fn assert_states_equal(a: &AppState, b: &AppState) {
    assert_eq!(a.source, b.source);
    assert_eq!(a.website.title, b.website.title);
    assert_eq!(a.website.about, b.website.about);
    assert_eq!(a.website.image, b.website.image);
    assert_eq!(a.website.fonts.bold, b.website.fonts.bold);
    assert_eq!(a.website.fonts.normal, b.website.fonts.normal);
    assert_eq!(a.website.accent_color.red, b.website.accent_color.red);
    assert_eq!(a.website.accent_color.green, b.website.accent_color.green);
    assert_eq!(a.website.accent_color.blue, b.website.accent_color.blue);
    assert_eq!(a.website.accent_color.alpha, b.website.accent_color.alpha);
    assert_eq!(a.website.portfolio.len(), b.website.portfolio.len());
    for (p, q) in a.website.portfolio.iter().zip(b.website.portfolio.iter()) {
        assert_eq!(p.id, q.id);
        assert_eq!(p.path, q.path);
        assert_eq!(p.meta.title, q.meta.title);
        assert_eq!(p.description, q.description);
        assert_eq!(p.images.len(), q.images.len());
        for (x, y) in p.images.iter().zip(q.images.iter()) {
            assert_eq!(x.position, y.position);
            assert_eq!(x.path, y.path);
        }
    }
}

/// Storing a state and loading it back yields a deep-equal state.
#[test]
fn round_trip_full_state() {
    let state = sample_state();
    let record = encode_state(&state);
    let loaded = decode_state(&record).expect("an intact record reads back");
    assert_states_equal(&state, &loaded);
}

/// The default state round-trips too.
#[test]
fn round_trip_default_state() {
    let state = AppState::default();
    let record = encode_state(&state);
    let loaded = decode_state(&record).expect("an intact record reads back");
    assert_states_equal(&state, &loaded);
}

/// A truncated record is rejected, never a crash.
#[test]
fn truncated_record_is_rejected() {
    let record = encode_state(&sample_state());
    for cut in 0..record.len() {
        let shorter = record[..cut].to_vec();
        assert!(decode_state(&shorter).is_none(), "cut at {cut} must not read back");
    }
}

/// A record with trailing garbage is rejected as a whole.
#[test]
fn trailing_bytes_are_rejected() {
    let mut record = encode_state(&sample_state());
    record.push(0);
    assert!(decode_state(&record).is_none());
}

/// Arbitrary bytes are rejected, never a crash.
#[test]
fn corrupt_record_is_rejected() {
    let garbage = vec![0xffu8; 64];
    assert!(decode_state(&garbage).is_none());
    let empty: Vec<u8> = vec![];
    assert!(decode_state(&empty).is_none());
}

/// Loading with no cache at all falls back to the default state.
#[test]
fn absent_cache_yields_default() {
    let state = state_from_cache(None);
    assert_states_equal(&state, &AppState::default());
}

/// Loading a corrupt cache falls back to the default state.
#[test]
fn corrupt_cache_yields_default() {
    let state = state_from_cache(Some(vec![1, 2, 3]));
    assert_states_equal(&state, &AppState::default());
    let good = encode_state(&sample_state());
    let state = state_from_cache(Some(good));
    assert_states_equal(&state, &sample_state());
}

/// A record whose string bytes are not valid UTF-8 is rejected.
#[test]
fn invalid_text_bytes_are_rejected() {
    let mut state = AppState::default();
    state.source = "abc".to_string();
    let mut record = encode_state(&state);
    // the source string's bytes sit right behind the first length prefix
    assert_eq!(record[8], b'a');
    record[8] = 0xff;
    assert!(decode_state(&record).is_none());
}
