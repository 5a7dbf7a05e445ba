# torrent

Searches several torrent sites and prints the magnet links it finds.

- `src/` is the verified library (Verus):
  - `text`: strings as characters, Unicode whitespace trimming, the order of strings;
  - `html`: a parsed page as a list of nodes, and searches by element name or attribute;
  - `listing`: how rows (title, magnet) become a listing: rows without a magnet
    dropped, the rest in descending order, whatever order they arrived in;
  - `sites::{torrentube, torrentmobile, tshare, ttobogo}`: what each site's
    pages are read for;
  - `consts`: the sites' addresses and fixed strings.
- `app/` is the program: command line, HTTP requests, concurrency and the
  printed table.
- `tests/` runs the library on sample pages.
