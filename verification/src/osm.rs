//! Slippy-map naming conventions: the tile server URL and the disk cache
//! path derived deterministically from a tile's coordinates.

use vstd::prelude::*;
use vstd::string::{StringExecFns, StrSliceExecFns};

verus! {

/// The decimal digit character for a value below ten.
pub open spec fn digit_char(d: int) -> char {
    if d == 0 {
        '0'
    } else if d == 1 {
        '1'
    } else if d == 2 {
        '2'
    } else if d == 3 {
        '3'
    } else if d == 4 {
        '4'
    } else if d == 5 {
        '5'
    } else if d == 6 {
        '6'
    } else if d == 7 {
        '7'
    } else if d == 8 {
        '8'
    } else {
        '9'
    }
}

/// The decimal digits of a number, most significant first.
pub open spec fn dec_chars(n: nat) -> Seq<char>
    decreases n,
{
    if n < 10 {
        seq![digit_char(n as int)]
    } else {
        dec_chars(n / 10) + seq![digit_char((n % 10) as int)]
    }
}

/// A one-character string for a decimal digit.
fn digit_str(d: u32) -> (s: &'static str)
    requires
        d < 10,
    ensures
        s@ == seq![digit_char(d as int)],
{
    proof {
        reveal_strlit("0");
        reveal_strlit("1");
        reveal_strlit("2");
        reveal_strlit("3");
        reveal_strlit("4");
        reveal_strlit("5");
        reveal_strlit("6");
        reveal_strlit("7");
        reveal_strlit("8");
        reveal_strlit("9");
    }
    if d == 0 {
        "0"
    } else if d == 1 {
        "1"
    } else if d == 2 {
        "2"
    } else if d == 3 {
        "3"
    } else if d == 4 {
        "4"
    } else if d == 5 {
        "5"
    } else if d == 6 {
        "6"
    } else if d == 7 {
        "7"
    } else if d == 8 {
        "8"
    } else {
        "9"
    }
}

/// The digit characters of a digit list read back to front (the list
/// stores the least significant digit first).
spec fn digits_rev_chars(d: Seq<u32>) -> Seq<char>
    decreases d.len(),
{
    if d.len() == 0 {
        Seq::empty()
    } else {
        seq![digit_char(d.last() as int)] + digits_rev_chars(d.drop_last())
    }
}

/// Format a number in decimal.
pub fn u32_to_string(n: u32) -> (s: String)
    ensures
        s@ == dec_chars(n as nat),
{
    let mut digits: Vec<u32> = Vec::new();
    let mut m: u32 = n;
    while m >= 10
        invariant
            dec_chars(n as nat) =~= dec_chars(m as nat) + digits_rev_chars(digits@),
            forall|k: int| 0 <= k < digits@.len() ==> #[trigger] digits@[k] < 10,
        decreases m,
    {
        let ghost d0 = digits@;
        digits.push(m % 10);
        proof {
            assert(digits@.last() == m % 10);
            assert(digits@.drop_last() =~= d0);
            assert(dec_chars(m as nat) =~= dec_chars((m as nat) / 10) + seq![
                digit_char(((m as nat) % 10) as int),
            ]);
            assert(digits_rev_chars(digits@) =~= seq![digit_char((m % 10) as int)]
                + digits_rev_chars(d0));
            assert(dec_chars(n as nat) =~= dec_chars((m / 10) as nat) + digits_rev_chars(digits@));
        }
        m = m / 10;
    }
    let mut s = String::new();
    s.append(digit_str(m));
    let mut k: usize = digits.len();
    proof {
        assert(digits@.take(k as int) =~= digits@);
        assert(s@ =~= seq![digit_char(m as int)]);
    }
    while k > 0
        invariant
            k <= digits@.len(),
            forall|j: int| 0 <= j < digits@.len() ==> #[trigger] digits@[j] < 10,
            dec_chars(n as nat) =~= s@ + digits_rev_chars(digits@.take(k as int)),
        decreases k,
    {
        let d = digits[k - 1];
        let ghost pre = digits@.take(k as int);
        s.append(digit_str(d));
        proof {
            assert(pre.last() == d);
            assert(pre.drop_last() =~= digits@.take(k as int - 1));
            assert(digits_rev_chars(pre) =~= seq![digit_char(d as int)] + digits_rev_chars(
                digits@.take(k as int - 1),
            ));
            assert(dec_chars(n as nat) =~= s@ + digits_rev_chars(digits@.take(k as int - 1)));
        }
        k = k - 1;
    }
    proof {
        assert(digits@.take(0) =~= Seq::<u32>::empty());
        assert(digits_rev_chars(Seq::<u32>::empty()) =~= Seq::<char>::empty());
        assert(dec_chars(n as nat) =~= s@);
    }
    s
}

/// The tile server URL for a tile: `{server}/{zoom}/{x}/{y}.png`.
pub open spec fn osm_url_chars(z: nat, x: nat, y: nat) -> Seq<char> {
    "https://a.tile.openstreetmap.org/"@ + dec_chars(z) + "/"@ + dec_chars(x) + "/"@ + dec_chars(y)
        + ".png"@
}

/// The disk cache path for a tile: `tile_cache/{zoom}/{x}/{y}.png`.
pub open spec fn cache_path_chars(z: nat, x: nat, y: nat) -> Seq<char> {
    "tile_cache/"@ + dec_chars(z) + "/"@ + dec_chars(x) + "/"@ + dec_chars(y) + ".png"@
}

/// A tile named in the slippy-map convention.
#[derive(Debug, Clone, Copy, PartialEq, Eq, Structural)]
pub struct OSMTile {
    pub x: u32,
    pub y: u32,
    pub z: u32,
}

impl OSMTile {
    pub fn new(x: u32, y: u32, z: u32) -> (t: Self)
        ensures
            t == (OSMTile { x, y, z }),
    {
        Self { x, y, z }
    }

    /// The URL this tile is fetched from: zoom, then x (west to east),
    /// then y (north to south).
    pub fn get_url(&self) -> (url: String)
        ensures
            url@ == osm_url_chars(self.z as nat, self.x as nat, self.y as nat),
    {
        let mut url = String::from_str("https://a.tile.openstreetmap.org/");
        let z = u32_to_string(self.z);
        url.append(z.as_str());
        url.append("/");
        let x = u32_to_string(self.x);
        url.append(x.as_str());
        url.append("/");
        let y = u32_to_string(self.y);
        url.append(y.as_str());
        url.append(".png");
        url
    }

    /// The deterministic cache file path for this tile; directories along
    /// it are created by the caller when the file is written.
    pub fn get_cache_path(&self) -> (path: String)
        ensures
            path@ == cache_path_chars(self.z as nat, self.x as nat, self.y as nat),
    {
        let mut path = String::from_str("tile_cache/");
        let z = u32_to_string(self.z);
        path.append(z.as_str());
        path.append("/");
        let x = u32_to_string(self.x);
        path.append(x.as_str());
        path.append("/");
        let y = u32_to_string(self.y);
        path.append(y.as_str());
        path.append(".png");
        path
    }
}

} // verus!