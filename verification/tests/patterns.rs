use regex::Regex;
use torrent::sites::torrentube::{get_magnets, get_titles};
use torrent::sites::ttobogo::get_magnet_checked;

/// A small deterministic generator of strings over the characters that matter
/// to the page patterns.
struct Gen(u64);

impl Gen {
    fn next(&mut self) -> u64 {
        self.0 = self.0.wrapping_mul(6364136223846793005).wrapping_add(1442695040888963407);
        self.0 >> 33
    }

    fn text(&mut self, alphabet: &[&str], len: usize) -> String {
        let mut s = String::new();
        for _ in 0..len {
            let k = (self.next() as usize) % alphabet.len();
            s.push_str(alphabet[k]);
        }
        s
    }
}

#[test]
fn titles_agree_with_the_page_regex() {
    let re = Regex::new(r"'fn': '(.+?)'").unwrap();
    let alphabet = ["'fn': '", "'", "a", "\n", " ", "한", "f", "n", ":"];
    let mut g = Gen(7);
    for _ in 0..3000 {
        let len = (g.next() % 12) as usize;
        let text = g.text(&alphabet, len);
        let expected: Vec<String> =
            re.captures_iter(&text).map(|c| c.get(1).unwrap().as_str().to_string()).collect();
        assert_eq!(get_titles(&text), expected, "text: {:?}", text);
    }
}

#[test]
fn magnets_agree_with_the_page_regex() {
    let re = Regex::new(r"'hs': '([0-9,a-z]{40})'").unwrap();
    let h = "0123456789abcdefghijklmnopqrstuvwxyz,,,,";
    let alphabet = ["'hs': '", h, "'", "0", "A", ",", "\n", " "];
    let mut g = Gen(11);
    for _ in 0..3000 {
        let len = (g.next() % 8) as usize;
        let text = g.text(&alphabet, len);
        let expected: Vec<String> = re
            .captures_iter(&text)
            .map(|c| format!("magnet:?xt=urn:btih:{}", c.get(1).unwrap().as_str()))
            .collect();
        assert_eq!(get_magnets(&text), expected, "text: {:?}", text);
    }
}

#[test]
fn button_hash_agrees_with_the_page_regex() {
    let re = Regex::new(r"[0-9a-z]{40}").unwrap();
    let alphabet = ["0123456789", "abcdefghij", "x", "Z", "'", "가"];
    let mut g = Gen(13);
    for _ in 0..2000 {
        let len = (g.next() % 10) as usize;
        let handler = g.text(&alphabet, len);
        let page = format!(
            "<button class=\"btn btn-blue\" onclick=\"{}\">m</button>",
            handler.replace('"', "")
        );
        let expected = re
            .captures(&handler)
            .map(|c| format!("magnet:?xt=urn:btih:{}", &c[0]));
        assert_eq!(get_magnet_checked(&page), expected, "handler: {:?}", handler);
    }
}
