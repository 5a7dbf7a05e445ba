use torrent::sites::torrentube::{get_magnets, get_titles, run};

fn search_page() -> String {
    let items = [
        (
            "동상이몽2 너는 내운명.E149.200608.720p-NEXT.mp4 [안깨지는영상]",
            "7226f232a460e74e0a41aa355e9b005298381d3b",
        ),
        (
            "동상이몽2 너는 내운명.E149.200608.720p-NEXT (안깨지는영상)",
            "a87ab1393d8f856be8fe3cc50192cadc9cc4acde",
        ),
        (
            "동상이몽2 너는 내운명.E149.200608.720p-NEXT",
            "3818bc5431b7390eaeabc1e9877384e6a80cdeda",
        ),
    ];
    let mut s = String::from("<script>var list = [");
    for (title, hash) in items.iter() {
        s.push_str(&format!("{{'fn': '{}', 'sz': '1.2 GB', 'hs': '{}'}},\n", title, hash));
    }
    s.push_str("];</script>");
    s
}

#[test]
fn torrentube_test_get_magnet_function() {
    let text = search_page();
    let titles = get_titles(&text);
    assert_eq!(
        titles,
        vec![
            "동상이몽2 너는 내운명.E149.200608.720p-NEXT.mp4 [안깨지는영상]",
            "동상이몽2 너는 내운명.E149.200608.720p-NEXT (안깨지는영상)",
            "동상이몽2 너는 내운명.E149.200608.720p-NEXT",
        ]
    )
}

#[test]
fn test_get_title_function() {
    let text = search_page();
    let magnets = get_magnets(&text);
    assert_eq!(
        magnets,
        vec![
            "magnet:?xt=urn:btih:7226f232a460e74e0a41aa355e9b005298381d3b",
            "magnet:?xt=urn:btih:a87ab1393d8f856be8fe3cc50192cadc9cc4acde",
            "magnet:?xt=urn:btih:3818bc5431b7390eaeabc1e9877384e6a80cdeda",
        ]
    )
}

#[test]
fn torrentube_title_is_shortest_and_single_line() {
    // The title ends at the first quote after its first character.
    assert_eq!(get_titles("'fn': 'a'b'"), vec!["a"]);
    // Its first character may be a quote.
    assert_eq!(get_titles("'fn': '''"), vec!["'"]);
    // A line feed before the closing quote: no title there.
    assert_eq!(get_titles("'fn': 'a\nb' 'fn': 'c'"), vec!["c"]);
    // An empty title does not match; the search goes on.
    assert_eq!(get_titles("'fn': ''x'"), vec!["'x"]);
    assert!(get_titles("").is_empty());
}

#[test]
fn torrentube_hash_needs_forty_characters() {
    let h = "0123456789abcdefghijklmnopqrstuvwxyz,,,,";
    assert_eq!(
        get_magnets(&format!("'hs': '{}'", h)),
        vec![format!("magnet:?xt=urn:btih:{}", h)]
    );
    // 39 characters, an upper-case one, or no closing quote: nothing.
    assert!(get_magnets(&format!("'hs': '{}'", &h[1..])).is_empty());
    assert!(get_magnets(&format!("'hs': 'A{}'", &h[1..])).is_empty());
    assert!(get_magnets(&format!("'hs': '{}", h)).is_empty());
}

#[test]
fn torrentube_run_pairs_by_position() {
    let text = "'fn': 'one' 'hs': '1111111111111111111111111111111111111111' 'fn': 'two'";
    assert_eq!(
        run(text),
        vec![(
            "one".to_owned(),
            "magnet:?xt=urn:btih:1111111111111111111111111111111111111111".to_owned()
        )]
    );
}

#[test]
fn torrentube_results_split_at_a_line_feed() {
    let h = "abcdefghij0123456789abcdefghij0123456789";
    let a = format!("'fn': 'one' 'hs': '{}'\n'fn': 'two", h);
    let a = format!("{}\n", a);
    let b = format!("' 'fn': 'three' 'hs': '{}'", h);
    let whole = format!("{}{}", a, b);
    let mut titles = get_titles(&a);
    titles.extend(get_titles(&b));
    assert_eq!(get_titles(&whole), titles);
    assert_eq!(get_titles(&whole), vec!["one", "three"]);
    let mut magnets = get_magnets(&a);
    magnets.extend(get_magnets(&b));
    assert_eq!(get_magnets(&whole), magnets);
    assert_eq!(get_magnets(&whole).len(), 2);
}
