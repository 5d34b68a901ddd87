//! The subpage service: random pages, the index listing, lookup and routing.

use hammer::subpages::{
    bytes_eq, gen_subpages, SubpageService, SUBPAGE_BODY_LEN, SUBPAGE_NAME_LEN, SUBPAGE_QTY,
};

#[test]
fn generated_pages_have_unique_well_formed_names() {
    let mut rng = rand::thread_rng();
    let data = gen_subpages(&mut rng);
    assert_eq!(data.len(), SUBPAGE_QTY);
    for (name, body) in &data {
        assert_eq!(name.len(), SUBPAGE_NAME_LEN);
        assert_eq!(body.len(), SUBPAGE_BODY_LEN);
        assert!(name.iter().all(|b| b.is_ascii_alphanumeric()));
    }
    for i in 0..data.len() {
        for j in (i + 1)..data.len() {
            assert_ne!(data[i].0, data[j].0);
        }
    }
}

#[test]
fn generated_pages_are_sorted_by_name() {
    let mut rng = rand::thread_rng();
    let data = gen_subpages(&mut rng);
    for pair in data.windows(2) {
        assert!(pair[0].0 < pair[1].0);
    }
    // The index lists the names in the same ascending order.
    let s = SubpageService::new(b"pages", &mut rng);
    let index = s.index_response();
    let body = String::from_utf8(index.body).unwrap();
    let lines: Vec<&str> = body.lines().collect();
    let mut sorted = lines.clone();
    sorted.sort();
    assert_eq!(lines, sorted);
    assert_eq!(lines.len(), SUBPAGE_QTY);
}

#[test]
fn mount_path_loses_surrounding_slashes() {
    let mut rng = rand::thread_rng();
    let s = SubpageService::new(b"/pages/", &mut rng);
    assert_eq!(s.path, b"pages");
    let t = SubpageService::new(b"///deep/tree///", &mut rng);
    assert_eq!(t.path, b"deep/tree");
}

#[test]
fn index_lists_every_page_once() {
    let mut rng = rand::thread_rng();
    let s = SubpageService::new(b"/pages/", &mut rng);
    let index = s.index_response();
    assert_eq!(index.status, 200);
    let body = String::from_utf8(index.body).unwrap();
    let lines: Vec<&str> = body.lines().collect();
    assert_eq!(lines.len(), s.data.len());
    for (line, (name, _)) in lines.iter().zip(s.data.iter()) {
        let expect = format!("/pages/{}", String::from_utf8(name.clone()).unwrap());
        assert_eq!(*line, expect);
    }
}

#[test]
fn lookup_finds_the_page_or_reports_missing() {
    let mut rng = rand::thread_rng();
    let s = SubpageService::new(b"pages", &mut rng);
    let (name, body) = &s.data[0];
    let hit = s.subpage_response(name);
    assert_eq!(hit.status, 200);
    assert_eq!(&hit.body, body);
    let miss = s.subpage_response(b"no-such-page");
    assert_eq!(miss.status, 404);
    assert_eq!(miss.body, b"404\n");
}

#[test]
fn request_routing_splits_index_from_pages() {
    let mut rng = rand::thread_rng();
    let s = SubpageService::new(b"pages", &mut rng);
    let index = s.handle_request(b"");
    assert_eq!(index.status, 200);
    let index_again = s.handle_request(b"///");
    assert_eq!(index_again.body, index.body);
    let mut path = b"/".to_vec();
    path.extend_from_slice(&s.data[2].0);
    let hit = s.handle_request(&path);
    assert_eq!(hit.status, 200);
    assert_eq!(hit.body, s.data[2].1);
    let miss = s.handle_request(b"/absent");
    assert_eq!(miss.status, 404);
}

#[test]
fn bytes_eq_compares_contents() {
    assert!(bytes_eq(b"same", b"same"));
    assert!(!bytes_eq(b"same", b"sane"));
    assert!(!bytes_eq(b"short", b"shorter"));
    assert!(bytes_eq(b"", b""));
}
