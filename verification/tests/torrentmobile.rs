use torrent::consts::NO_MAGNET;
use torrent::sites::torrentmobile::{get_data, get_data_checked, get_magnet, run};
use torrent::DataStatus;

fn magnet_page(magnet: &str) -> String {
    format!(
        "<html><body><ul class=\"list-group\">\
         <li class=\"list-group-item\">size</li>\
         <li class=\"list-group-item en font-14 break-word\">\n   {}\n </li>\
         </ul></body></html>",
        magnet
    )
}

#[test]
fn torrentmobile_test_get_magnet_function() {
    let data = vec![
        (
            "https://torrentmobile15.com/bbs/board.php?bo_table=movie&wr_id=17310",
            "magnet:?xt=urn:btih:c36bd92c970cadace937a0d22f0440384ca6b6da",
        ),
        (
            "https://torrentmobile15.com/bbs/board.php?bo_table=movie&wr_id=17242",
            "magnet:?xt=urn:btih:7f45e15f60b295b1f42f1d5160409f0e1006dcb0",
        ),
        (
            "https://torrentmobile15.com/bbs/board.php?bo_table=movie&wr_id=17220",
            "magnet:?xt=urn:btih:baeffe526ecb61e2e774b2e460a5bdddf3f1e195",
        ),
    ];
    for d in data {
        assert_eq!(get_magnet(&magnet_page(d.1)), d.1);
    }
}

#[test]
fn torrentmobile_test_get_data_function() {
    let body = "<html><body><div class=\"media-body\">\
        <h4 class=\"media-heading\"><a href=\"./board.php?bo_table=music&amp;wr_id=50192\">\n  어서와 한국은 처음이지 시즌2.E141.210114.720p-NEXT  </a></h4>\
        <h4 class=\"media-heading\"><a href=\"../bbs/board.php?bo_table=music&amp;wr_id=40009\">살림하는 남자들 시즌2.E141.200219.720p-NEXT</a></h4>\
        </div></body></html>";
    let data = vec![
        (
            "어서와 한국은 처음이지 시즌2.E141.210114.720p-NEXT".to_owned(),
            "https://torrentmobile15.com/bbs/board.php?bo_table=music&wr_id=50192".to_owned(),
        ),
        (
            "살림하는 남자들 시즌2.E141.200219.720p-NEXT".to_owned(),
            "https://torrentmobile15.com/bbs/board.php?bo_table=music&wr_id=40009".to_owned(),
        ),
    ];
    let result = get_data(body);
    for n in 0..data.len() {
        assert_eq!(data[n], result[n]);
    }
}

#[test]
fn torrentmobile_page_without_magnet_gives_no_magnet() {
    let body = "<html><body><ul><li class=\"list-group-item\">x</li></ul></body></html>";
    assert_eq!(get_magnet(body), NO_MAGNET);
}

#[test]
fn torrentmobile_heading_without_link_is_refused() {
    let body = "<h4 class=\"media-heading\">no link</h4>";
    assert_eq!(get_data_checked(body), None);
    let body = "<h4 class=\"media-heading\"><a>no address</a></h4>";
    assert_eq!(get_data_checked(body), None);
}

#[test]
fn torrentmobile_run_drops_missing_and_sorts_descending() {
    let results = vec![
        ("b".to_owned(), "magnet:?xt=urn:btih:1".to_owned()),
        ("a".to_owned(), NO_MAGNET.to_owned()),
        ("c".to_owned(), "magnet:?xt=urn:btih:2".to_owned()),
    ];
    let (status, rows) = run(&results);
    assert_eq!(status, DataStatus::Found);
    assert_eq!(
        rows,
        vec![
            ("c".to_owned(), "magnet:?xt=urn:btih:2".to_owned()),
            ("b".to_owned(), "magnet:?xt=urn:btih:1".to_owned()),
        ]
    );
    let (status, rows) = run(&Vec::new());
    assert_eq!(status, DataStatus::NotFound);
    assert!(rows.is_empty());
}
