//! Where the lists are kept and what they are called.
use crate::settings;
use crate::text;
use vstd::prelude::*;

verus! {

/// The text of bytes in Latin-1: each byte is the character of the same number.
pub open spec fn latin1(bytes: Seq<u8>) -> Seq<char> {
    bytes.map_values(|b: u8| b as char)
}

/// Turns Latin-1, in which the lists come, into text.
pub fn latin1_to_string(bytes: &[u8]) -> (r: String)
    ensures
        r@ == latin1(bytes@),
{
    let mut s = String::new();
    let mut i: usize = 0;
    while i < bytes.len()
        invariant
            i <= bytes@.len(),
            s@ == latin1(bytes@).take(i as int),
        decreases bytes.len() - i,
    {
        s.push(bytes[i] as char);
        assert(latin1(bytes@).take(i as int + 1) == latin1(bytes@).take(i as int).push(
            latin1(bytes@)[i as int],
        ));
        i = i + 1;
    }
    assert(latin1(bytes@).take(i as int) == latin1(bytes@));
    s
}

/// The name of the file with the description of the codes, as it is fetched.
pub fn readme_name() -> (r: &'static str)
    ensures
        r@ == "README.TXT"@,
{
    "README.TXT"
}

/// The name of the file in which the description is kept.
pub fn readme_cache_name() -> (r: &'static str)
    ensures
        r@ == "eibi-readme.txt"@,
{
    "eibi-readme.txt"
}

/// The name of the list of a season, as it is fetched.
pub fn list_name(season: &str) -> (r: String)
    ensures
        r@ == "sked-"@ + season@ + ".csv"@,
{
    let mut s = "sked-".to_string();
    text::push_text(&mut s, season);
    text::push_text(&mut s, ".csv");
    s
}

/// The address of a file of the lists.
pub fn list_url(name: &str) -> (r: String)
    ensures
        r@ == "http://www.eibispace.de/dx/"@ + name@,
{
    let mut s = "http://www.eibispace.de/dx/".to_string();
    text::push_text(&mut s, name);
    s
}

/// The directory in which all programs keep what can be had again: the one that is named for it, else
/// the usual one below the home directory, if there is one.
pub open spec fn cache_base_of(cache_home: Option<Seq<char>>, home: Option<Seq<char>>) -> Option<
    Seq<char>,
> {
    match cache_home {
        Some(dir) => Some(dir),
        None => match home {
            Some(h) => Some(text::joined(h, ".cache"@)),
            None => None,
        },
    }
}

/// The directory in which all programs keep what can be had again.
pub fn cache_base(cache_home: Option<&str>, home: Option<&str>) -> (r: Option<String>)
    ensures
        match cache_base_of(settings::text_of(cache_home), settings::text_of(home)) {
            Some(b) => r is Some && r->0@ == b,
            None => r is None,
        },
{
    match cache_home {
        Some(dir) => Some(dir.to_string()),
        None => match home {
            Some(h) => Some(text::join_path(h, ".cache")),
            None => None,
        },
    }
}

/// The directory for what is kept from before, below the one for all programs.
pub fn cache_dir(base: Option<&str>) -> (r: Option<String>)
    ensures
        r is Some <==> base is Some,
        r matches Some(dir) ==> dir@ == text::joined(base->0@, "knoflik-sdr"@),
{
    match base {
        None => None,
        Some(base) => Some(text::join_path(base, "knoflik-sdr")),
    }
}

/// The file in which the list of a season is kept.
pub fn cache_path(base: Option<&str>, season: &str) -> (r: Option<String>)
    ensures
        r is Some <==> base is Some,
        r matches Some(path) ==> path@ == text::joined(
            text::joined(base->0@, "knoflik-sdr"@),
            "eibi-"@ + season@ + ".csv"@,
        ),
{
    match cache_dir(base) {
        None => None,
        Some(dir) => {
            let mut name = "eibi-".to_string();
            text::push_text(&mut name, season);
            text::push_text(&mut name, ".csv");
            Some(text::join_path(dir.as_str(), name.as_str()))
        },
    }
}

/// Every byte of Latin-1 is the character of its own number, in its own place.
pub proof fn law_bytes_are_characters(bytes: Seq<u8>, i: int)
    requires
        0 <= i < bytes.len(),
    ensures
        latin1(bytes).len() == bytes.len(),
        latin1(bytes)[i] as int == bytes[i] as int,
{
}

} // verus!
