use torrent::consts::NO_MAGNET;
use torrent::sites::ttobogo::{get_data, get_data_checked, get_magnet, get_magnet_checked, run};
use torrent::DataStatus;

fn post_page(hash: &str) -> String {
    format!(
        "<html><body><button class=\"btn btn-blue\" onclick=\"magnet_link('{}');\">Magnet</button>\
         </body></html>",
        hash
    )
}

#[test]
fn ttobogo_test_get_magnet_function() {
    let data = vec![
        (
            "https://ttobogo.net/post/160049",
            "magnet:?xt=urn:btih:d77a44e97d82ee818f017a3f7cf0dc6c5e625357",
        ),
        (
            "https://ttobogo.net/post/181711",
            "magnet:?xt=urn:btih:2039d8aebb9f406cfc114c909982d36460b65639",
        ),
        (
            "https://ttobogo.net/post/178001",
            "magnet:?xt=urn:btih:000e523427aa08e249058fb90f230fe92e9e3adc",
        ),
        (
            "https://ttobogo.net/post/170793",
            "magnet:?xt=urn:btih:c2f7e50f853f3d3aacd585d00fc1c3e64c123153",
        ),
    ];
    for d in data {
        let hash = &d.1["magnet:?xt=urn:btih:".len()..];
        assert_eq!(get_magnet(&post_page(hash)), d.1);
    }
}

#[test]
fn ttobogo_test_get_data_function() {
    let body = "<html><body><ul>\
        <li><a class=\"subject\" href=\"https://ttobogo.net/post/181711\" title=\"어서와 한국은 처음이지 시즌2.E141.210114.720p-NEXT\">x</a></li>\
        <li><a class=\"subject\" href=\"https://ttobogo.net/post/17920\" title=\"살림하는 남자들 시즌2.E141.200219.720p-NEXT\">y</a></li>\
        </ul></body></html>";
    let data = vec![
        (
            "어서와 한국은 처음이지 시즌2.E141.210114.720p-NEXT".to_owned(),
            "https://ttobogo.net/post/181711".to_owned(),
        ),
        (
            "살림하는 남자들 시즌2.E141.200219.720p-NEXT".to_owned(),
            "https://ttobogo.net/post/17920".to_owned(),
        ),
    ];
    let result = get_data(body);
    for n in 0..data.len() {
        assert_eq!(data[n], result[n]);
    }
}

#[test]
fn ttobogo_magnet_cases() {
    // No magnet button.
    assert_eq!(get_magnet_checked("<p>post</p>").unwrap(), NO_MAGNET);
    // A button without onclick, or without a hash in it.
    assert_eq!(get_magnet_checked("<button class=\"btn btn-blue\">x</button>"), None);
    assert_eq!(
        get_magnet_checked("<button class=\"btn btn-blue\" onclick=\"go('ABC')\">x</button>"),
        None
    );
    // The leftmost run of 40 hash characters is taken.
    let long = "0123456789abcdefghijklmnopqrstuvwxyz01234567";
    assert_eq!(
        get_magnet(&post_page(long)),
        format!("magnet:?xt=urn:btih:{}", &long[..40])
    );
    // The class must be exactly this value.
    assert_eq!(
        get_magnet("<button class=\"btn btn-blue big\" onclick=\"x\">x</button>"),
        NO_MAGNET
    );
}

#[test]
fn ttobogo_post_without_title_is_refused() {
    assert_eq!(get_data_checked("<a class=\"subject\" href=\"x\">t</a>"), None);
}

#[test]
fn ttobogo_run_is_independent_of_arrival_order() {
    let a = vec![
        ("x".to_owned(), "m1".to_owned()),
        ("y".to_owned(), NO_MAGNET.to_owned()),
        ("z".to_owned(), "m2".to_owned()),
    ];
    let b = vec![a[2].clone(), a[0].clone(), a[1].clone()];
    let ra = run(&a);
    let rb = run(&b);
    assert_eq!(ra.0, DataStatus::Found);
    assert_eq!(ra.1, rb.1);
    assert_eq!(
        ra.1,
        vec![("z".to_owned(), "m2".to_owned()), ("x".to_owned(), "m1".to_owned())]
    );
}
