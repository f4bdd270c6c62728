//! Context feature extraction.
//!
//! Every classifier instance describes one character position through a
//! fixed set of 41 feature strings, built from a window of the three
//! preceding boundary tags, the six surrounding characters (offsets -3 to
//! +2) and their script labels.  Each feature string is literally
//! `<prefix>:<concatenated values>`.

use vstd::prelude::*;

verus! {

/// The 41 feature strings for one position, from the three preceding tags
/// `p1..p3`, the six window characters `w1..w6` and their script labels
/// `c1..c6`.
pub open spec fn attrs_of(
    p1: Seq<char>,
    p2: Seq<char>,
    p3: Seq<char>,
    w1: Seq<char>,
    w2: Seq<char>,
    w3: Seq<char>,
    w4: Seq<char>,
    w5: Seq<char>,
    w6: Seq<char>,
    c1: Seq<char>,
    c2: Seq<char>,
    c3: Seq<char>,
    c4: Seq<char>,
    c5: Seq<char>,
    c6: Seq<char>,
) -> Seq<Seq<char>> {
    seq![
        "UP1:"@ + p1,
        "UP2:"@ + p2,
        "UP3:"@ + p3,
        "BP1:"@ + p1 + p2,
        "BP2:"@ + p2 + p3,
        "UW1:"@ + w1,
        "UW2:"@ + w2,
        "UW3:"@ + w3,
        "UW4:"@ + w4,
        "UW5:"@ + w5,
        "UW6:"@ + w6,
        "BW1:"@ + w2 + w3,
        "BW2:"@ + w3 + w4,
        "BW3:"@ + w4 + w5,
        "TW1:"@ + w1 + w2 + w3,
        "TW2:"@ + w2 + w3 + w4,
        "TW3:"@ + w3 + w4 + w5,
        "TW4:"@ + w4 + w5 + w6,
        "UC1:"@ + c1,
        "UC2:"@ + c2,
        "UC3:"@ + c3,
        "UC4:"@ + c4,
        "UC5:"@ + c5,
        "UC6:"@ + c6,
        "BC1:"@ + c2 + c3,
        "BC2:"@ + c3 + c4,
        "BC3:"@ + c4 + c5,
        "TC1:"@ + c1 + c2 + c3,
        "TC2:"@ + c2 + c3 + c4,
        "TC3:"@ + c3 + c4 + c5,
        "TC4:"@ + c4 + c5 + c6,
        "UQ1:"@ + p1 + c1,
        "UQ2:"@ + p2 + c2,
        "UQ3:"@ + p3 + c3,
        "BQ1:"@ + p2 + c2 + c3,
        "BQ2:"@ + p2 + c3 + c4,
        "BQ3:"@ + p3 + c2 + c3,
        "BQ4:"@ + p3 + c3 + c4,
        "TQ1:"@ + p2 + c1 + c2 + c3,
        "TQ2:"@ + p2 + c2 + c3 + c4,
        "TQ3:"@ + p3 + c1 + c2 + c3,
        "TQ4:"@ + p3 + c2 + c3 + c4,
    ]
}

/// The feature set of position `i` in a padded sentence, given the per
/// position tags, characters and script labels.
pub open spec fn spec_attributes(
    tags: Seq<Seq<char>>,
    chars: Seq<Seq<char>>,
    types: Seq<Seq<char>>,
    i: int,
) -> Seq<Seq<char>> {
    attrs_of(
        tags[i - 3],
        tags[i - 2],
        tags[i - 1],
        chars[i - 3],
        chars[i - 2],
        chars[i - 1],
        chars[i],
        chars[i + 1],
        chars[i + 2],
        types[i - 3],
        types[i - 2],
        types[i - 1],
        types[i],
        types[i + 1],
        types[i + 2],
    )
}

/// `prefix` followed by one value.
fn cat1(prefix: &str, a: &str) -> (r: String)
    ensures
        r@ == prefix@ + a@,
{
    String::from_str(prefix).concat(a)
}

/// `prefix` followed by two values.
fn cat2(prefix: &str, a: &str, b: &str) -> (r: String)
    ensures
        r@ == prefix@ + a@ + b@,
{
    String::from_str(prefix).concat(a).concat(b)
}

/// `prefix` followed by three values.
fn cat3(prefix: &str, a: &str, b: &str, c: &str) -> (r: String)
    ensures
        r@ == prefix@ + a@ + b@ + c@,
{
    String::from_str(prefix).concat(a).concat(b).concat(c)
}

/// `prefix` followed by four values.
fn cat4(prefix: &str, a: &str, b: &str, c: &str, d: &str) -> (r: String)
    ensures
        r@ == prefix@ + a@ + b@ + c@ + d@,
{
    String::from_str(prefix).concat(a).concat(b).concat(c).concat(d)
}

/// Build the 41 feature strings for position `i`.
///
/// `tags` may be shorter than `chars`: only the three entries before `i`
/// are read from it.
pub fn extract_attributes(i: usize, tags: &Vec<String>, chars: &Vec<String>, types: &Vec<String>)
    -> (r: Vec<String>)
    requires
        3 <= i,
        i + 2 < chars.len(),
        chars.len() == types.len(),
        i <= tags.len(),
    ensures
        r.deep_view() == spec_attributes(tags.deep_view(), chars.deep_view(), types.deep_view(),
            i as int),
{
    let p1 = tags[i - 3].as_str();
    let p2 = tags[i - 2].as_str();
    let p3 = tags[i - 1].as_str();
    let w1 = chars[i - 3].as_str();
    let w2 = chars[i - 2].as_str();
    let w3 = chars[i - 1].as_str();
    let w4 = chars[i].as_str();
    let w5 = chars[i + 1].as_str();
    let w6 = chars[i + 2].as_str();
    let c1 = types[i - 3].as_str();
    let c2 = types[i - 2].as_str();
    let c3 = types[i - 1].as_str();
    let c4 = types[i].as_str();
    let c5 = types[i + 1].as_str();
    let c6 = types[i + 2].as_str();

    let mut r: Vec<String> = Vec::new();
    r.push(cat1("UP1:", p1));
    r.push(cat1("UP2:", p2));
    r.push(cat1("UP3:", p3));
    r.push(cat2("BP1:", p1, p2));
    r.push(cat2("BP2:", p2, p3));
    r.push(cat1("UW1:", w1));
    r.push(cat1("UW2:", w2));
    r.push(cat1("UW3:", w3));
    r.push(cat1("UW4:", w4));
    r.push(cat1("UW5:", w5));
    r.push(cat1("UW6:", w6));
    r.push(cat2("BW1:", w2, w3));
    r.push(cat2("BW2:", w3, w4));
    r.push(cat2("BW3:", w4, w5));
    r.push(cat3("TW1:", w1, w2, w3));
    r.push(cat3("TW2:", w2, w3, w4));
    r.push(cat3("TW3:", w3, w4, w5));
    r.push(cat3("TW4:", w4, w5, w6));
    r.push(cat1("UC1:", c1));
    r.push(cat1("UC2:", c2));
    r.push(cat1("UC3:", c3));
    r.push(cat1("UC4:", c4));
    r.push(cat1("UC5:", c5));
    r.push(cat1("UC6:", c6));
    r.push(cat2("BC1:", c2, c3));
    r.push(cat2("BC2:", c3, c4));
    r.push(cat2("BC3:", c4, c5));
    r.push(cat3("TC1:", c1, c2, c3));
    r.push(cat3("TC2:", c2, c3, c4));
    r.push(cat3("TC3:", c3, c4, c5));
    r.push(cat3("TC4:", c4, c5, c6));
    r.push(cat2("UQ1:", p1, c1));
    r.push(cat2("UQ2:", p2, c2));
    r.push(cat2("UQ3:", p3, c3));
    r.push(cat3("BQ1:", p2, c2, c3));
    r.push(cat3("BQ2:", p2, c3, c4));
    r.push(cat3("BQ3:", p3, c2, c3));
    r.push(cat3("BQ4:", p3, c3, c4));
    r.push(cat4("TQ1:", p2, c1, c2, c3));
    r.push(cat4("TQ2:", p2, c2, c3, c4));
    r.push(cat4("TQ3:", p3, c1, c2, c3));
    r.push(cat4("TQ4:", p3, c2, c3, c4));
    proof {
        assert(r.deep_view() =~= spec_attributes(tags.deep_view(), chars.deep_view(),
            types.deep_view(), i as int));
    }
    r
}

} // verus!
