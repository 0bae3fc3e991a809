use vstd::prelude::*;
use crate::paths::{spec_fields, spec_trim, split_ranges, trim_range};

verus! {

/// The service configuration consumed at startup.
pub struct Config {
    pub database_url: String,
    pub storage_paths: Vec<String>,
    pub port: u16,
    pub jwt_secret: String,
}

/// The configured storage roots: the comma-separated entries of the
/// configuration string, each trimmed of surrounding whitespace.
pub open spec fn spec_storage_paths(s: Seq<char>) -> Seq<Seq<char>> {
    spec_fields(s, ',').map_values(|c: Seq<char>| spec_trim(c))
}

/// Splits the configured storage-path list on commas and trims each
/// entry.
pub fn parse_storage_paths(s: &String) -> (r: Vec<String>)
    ensures
        r@.map_values(|t: String| t@) == spec_storage_paths(s@),
{
    let ranges = split_ranges(s.as_str(), ',');
    let n = ranges.len();
    let mut r: Vec<String> = Vec::new();
    let mut i: usize = 0;
    while i < n
        invariant
            i <= n,
            n == ranges@.len(),
            forall|t: int|
                0 <= t < ranges@.len() ==> (#[trigger] ranges@[t]).0 <= ranges@[t].1 <= s@.len(),
            ranges@.map_values(|p: (usize, usize)| s@.subrange(p.0 as int, p.1 as int))
                == spec_fields(s@, ','),
            r@.map_values(|t: String| t@) == spec_storage_paths(s@).take(i as int),
        decreases n - i,
    {
        let (a, b) = (ranges[i].0, ranges[i].1);
        let (ts, te) = trim_range(s.as_str(), a, b);
        let piece = String::from_str(s.as_str().substring_char(ts, te));
        let ghost rmap_pre = r@.map_values(|t: String| t@);
        r.push(piece);
        proof {
            assert(spec_fields(s@, ',')[i as int] == s@.subrange(a as int, b as int));
            assert(piece@ == spec_storage_paths(s@)[i as int]);
            assert(r@.map_values(|t: String| t@) =~~= rmap_pre.push(piece@));
            assert(rmap_pre.push(piece@) =~~= spec_storage_paths(s@).take(i + 1));
        }
        i = i + 1;
    }
    proof {
        assert(spec_storage_paths(s@).take(n as int) =~~= spec_storage_paths(s@));
    }
    r
}

/// Whether a character is a decimal digit.
pub open spec fn spec_is_digit(c: char) -> bool {
    c == '0' || c == '1' || c == '2' || c == '3' || c == '4' || c == '5' || c == '6' || c == '7'
        || c == '8' || c == '9'
}

/// The numeric value of a decimal digit.
pub open spec fn spec_digit_value(c: char) -> int {
    if c == '0' {
        0
    } else if c == '1' {
        1
    } else if c == '2' {
        2
    } else if c == '3' {
        3
    } else if c == '4' {
        4
    } else if c == '5' {
        5
    } else if c == '6' {
        6
    } else if c == '7' {
        7
    } else if c == '8' {
        8
    } else {
        9
    }
}

/// The value of a string of decimal digits, most significant first.
pub open spec fn spec_dec_value(s: Seq<char>) -> int
    decreases s.len(),
{
    if s.len() == 0 {
        0
    } else {
        spec_dec_value(s.drop_last()) * 10 + spec_digit_value(s.last())
    }
}

/// Whether every character of `s` is a decimal digit.
pub open spec fn spec_all_digits(s: Seq<char>) -> bool {
    forall|i: int| 0 <= i < s.len() ==> spec_is_digit(#[trigger] s[i])
}

proof fn lemma_dec_value_monotonic(s: Seq<char>, i: int)
    requires
        0 <= i <= s.len(),
        spec_all_digits(s),
    ensures
        spec_dec_value(s.take(i)) <= spec_dec_value(s),
        spec_dec_value(s) >= 0,
    decreases s.len() - i,
{
    if i == s.len() {
        assert(s.take(i) =~= s);
        lemma_dec_value_nonnegative(s);
    } else {
        lemma_dec_value_monotonic(s, i + 1);
        lemma_dec_value_nonnegative(s.take(i));
        assert(s.take(i + 1).drop_last() =~= s.take(i));
        assert(s.take(i + 1).last() == s[i]);
    }
}

proof fn lemma_dec_value_nonnegative(s: Seq<char>)
    ensures
        spec_dec_value(s) >= 0,
    decreases s.len(),
{
    if s.len() > 0 {
        lemma_dec_value_nonnegative(s.drop_last());
    }
}

fn digit_value(c: char) -> (r: Option<u32>)
    ensures
        match r {
            Some(v) => spec_is_digit(c) && v == spec_digit_value(c),
            None => !spec_is_digit(c),
        },
{
    if c == '0' {
        Some(0)
    } else if c == '1' {
        Some(1)
    } else if c == '2' {
        Some(2)
    } else if c == '3' {
        Some(3)
    } else if c == '4' {
        Some(4)
    } else if c == '5' {
        Some(5)
    } else if c == '6' {
        Some(6)
    } else if c == '7' {
        Some(7)
    } else if c == '8' {
        Some(8)
    } else if c == '9' {
        Some(9)
    } else {
        None
    }
}

/// Parses a decimal port number: `Some` exactly when the string is
/// nonempty, all digits, and its value fits a `u16`.
pub fn parse_port(s: &str) -> (r: Option<u16>)
    ensures
        match r {
            Some(v) => s@.len() > 0 && spec_all_digits(s@) && v == spec_dec_value(s@),
            None => !(s@.len() > 0 && spec_all_digits(s@) && spec_dec_value(s@) <= u16::MAX),
        },
{
    let n = s.unicode_len();
    if n == 0 {
        return None;
    }
    let mut acc: u32 = 0;
    let mut i: usize = 0;
    proof {
        assert(s@.take(0) =~= Seq::<char>::empty());
    }
    while i < n
        invariant
            i <= n,
            n == s@.len(),
            acc == spec_dec_value(s@.take(i as int)),
            acc <= u16::MAX,
            forall|j: int| 0 <= j < i ==> spec_is_digit(#[trigger] s@[j]),
        decreases n - i,
    {
        proof {
            assert(s@.take(i + 1).drop_last() =~= s@.take(i as int));
            assert(s@.take(i + 1).last() == s@[i as int]);
        }
        let c = s.get_char(i);
        match digit_value(c) {
            Option::None => {
                return None;
            },
            Option::Some(d) => {
                let next = acc * 10 + d;
                if next > u16::MAX as u32 {
                    proof {
                        if spec_all_digits(s@) {
                            lemma_dec_value_monotonic(s@, i + 1);
                            assert(spec_dec_value(s@) >= next);
                        }
                    }
                    return None;
                }
                acc = next;
            },
        }
        i = i + 1;
    }
    proof {
        assert(s@.take(n as int) =~= s@);
    }
    Some(acc as u16)
}

impl Config {
    /// Assembles the configuration from the raw setting strings: the
    /// storage-path list is split on commas and trimmed, and the port
    /// falls back to 3001 when it does not parse as a decimal `u16`.
    pub fn from_values(
        database_url: String,
        storage_paths_str: &String,
        port_str: &String,
        jwt_secret: String,
    ) -> (c: Config)
        ensures
            c.database_url == database_url,
            c.jwt_secret == jwt_secret,
            c.storage_paths@.map_values(|t: String| t@) == spec_storage_paths(storage_paths_str@),
            c.port == match crate::config::spec_parsed_port(port_str@) {
                Some(v) => v,
                None => 3001u16,
            },
    {
        let storage_paths = parse_storage_paths(storage_paths_str);
        let port = match parse_port(port_str.as_str()) {
            Some(v) => v,
            None => 3001,
        };
        Config { database_url, storage_paths, port, jwt_secret }
    }
}

/// The port a setting string denotes, when it is a nonempty string of
/// digits whose value fits a `u16`.
pub open spec fn spec_parsed_port(s: Seq<char>) -> Option<u16> {
    if s.len() > 0 && spec_all_digits(s) && spec_dec_value(s) <= u16::MAX {
        Some(spec_dec_value(s) as u16)
    } else {
        None
    }
}

} // verus!
