//! Settings of the radar website.
use crate::text::chars_of;
use crate::text::replace_all;
use crate::text::replaced;
use crate::text::string_from_chars;
use vstd::prelude::*;
use vstd::string::StringExecFns;

verus! {

/// Where the radar website listens, and how long it waits between two
/// reads of the game.
#[derive(Debug, Clone)]
pub struct WebsiteConfig {
    pub host: String,
    pub port: u16,
    pub sleep_ms: u64,
}

impl Default for WebsiteConfig {
    /// All interfaces, port 3000, 50 ms between reads.
    fn default() -> (r: Self)
        ensures
            r.host@ == "0.0.0.0"@,
            r.port == 3000,
            r.sleep_ms == 50,
    {
        WebsiteConfig { host: String::from_str("0.0.0.0"), port: 3000, sleep_ms: 50 }
    }
}

/// The map an extracted overview file belongs to: its file stem with
/// every `_radar` removed.
pub fn overview_map_key(stem: &str) -> (r: String)
    ensures
        r@ == replaced(stem@, "_radar"@, Seq::empty()),
{
    let cs = chars_of(stem);
    let marker = chars_of("_radar");
    proof {
        reveal_strlit("_radar");
    }
    let empty: Vec<char> = Vec::new();
    let key = replace_all(cs.as_slice(), marker.as_slice(), empty.as_slice());
    assert(empty@ =~= Seq::<char>::empty());
    string_from_chars(key.as_slice())
}

/// The map name shown: `Unknown` stands for an empty name or `<empty>`.
pub fn shown_map_name(name: String) -> (r: String)
    ensures
        name@.len() == 0 || name@ == "<empty>"@ ==> r@ == "Unknown"@,
        !(name@.len() == 0 || name@ == "<empty>"@) ==> r@ == name@,
{
    if name.as_str().is_empty() || name == String::from_str("<empty>") {
        String::from_str("Unknown")
    } else {
        name
    }
}

} // verus!
