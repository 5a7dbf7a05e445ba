use torrent::sites::tshare::{get_data, get_data_checked, get_magnet, get_magnet_checked, run};

fn post_page(magnet: &str) -> String {
    format!(
        "<html><body><table><tr><td>file</td><td><a href=\"{}\">magnet</a></td></tr></table>\
         </body></html>",
        magnet
    )
}

#[test]
fn tshare_test_get_magnet_function() {
    let data = vec![
        (
            "https://tshare.org/entertainment/13062",
            "magnet:?xt=urn:btih:6bb34701c93505114029e5c91a0e88a30c11703b",
        ),
        (
            "https://tshare.org/entertainment/12870",
            "magnet:?xt=urn:btih:ecf2f09ab88bfbf3c1f8e8dac02faff638433d23",
        ),
        (
            "https://tshare.org/entertainment/12366",
            "magnet:?xt=urn:btih:d77a44e97d82ee818f017a3f7cf0dc6c5e625357",
        ),
    ];
    for d in data {
        assert_eq!(get_magnet(&post_page(d.1)), d.1);
    }
}

#[test]
fn tshare_test_get_data_function() {
    let body = "<html><body><ul>\
        <li class=\"list-item-row\"><a href=\"https://tshare.org/entertainment/13065\">\
        <div class=\"matter\"><p>동상이몽2 너는 내운명.E177.201228.720p-NEXT.mp4</p><span>x</span></div></a></li>\
        <li class=\"list-item-row\"><a href=\"https://tshare.org/entertainment/13062\">\
        <div class=\"matter\"><p>동상이몽2 너는 내운명.E177.201228.720p-NEXT</p></div></a></li>\
        </ul></body></html>";
    let data = vec![
        (
            "동상이몽2 너는 내운명.E177.201228.720p-NEXT.mp4".to_owned(),
            "https://tshare.org/entertainment/13065".to_owned(),
        ),
        (
            "동상이몽2 너는 내운명.E177.201228.720p-NEXT".to_owned(),
            "https://tshare.org/entertainment/13062".to_owned(),
        ),
    ];
    let result = get_data(body);
    for n in 0..data.len() {
        assert_eq!(data[n], result[n]);
    }
}

#[test]
fn tshare_missing_parts_are_refused() {
    // One table cell only.
    assert_eq!(get_magnet_checked("<table><tr><td><a href=\"m\">m</a></td></tr></table>"), None);
    // A post without its matter element.
    assert_eq!(
        get_data_checked("<ul><li class=\"list-item-row\"><a href=\"x\">t</a></li></ul>"),
        None
    );
    // No posts at all: an empty listing.
    assert_eq!(get_data_checked("<p>nothing</p>"), Some(Vec::new()));
}

#[test]
fn tshare_run_sorts_descending_by_title_then_magnet() {
    let results = vec![
        ("a".to_owned(), "2".to_owned()),
        ("b".to_owned(), "1".to_owned()),
        ("a".to_owned(), "3".to_owned()),
        ("a".to_owned(), "2".to_owned()),
    ];
    assert_eq!(
        run(&results),
        vec![
            ("b".to_owned(), "1".to_owned()),
            ("a".to_owned(), "3".to_owned()),
            ("a".to_owned(), "2".to_owned()),
            ("a".to_owned(), "2".to_owned()),
        ]
    );
}
