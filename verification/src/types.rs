use vstd::prelude::*;

verus! {

/// Distance metric for similarity scoring. All metrics are reported as
/// similarity scores where larger is better: L2 distance is negated, IP is
/// the raw dot product, Cosine is the standard cosine similarity.
#[derive(Clone, Copy, Debug, PartialEq, Eq, Structural)]
pub enum Metric {
    L2,
    Cosine,
    IP,
}

/// ASCII-lowercase of one character; other characters are unchanged.
pub open spec fn lower_char(c: char) -> char {
    if 'A' <= c && c <= 'Z' {
        (((c as u8) + 32) as char)
    } else {
        c
    }
}

/// ASCII-lowercase of a character sequence.
pub open spec fn lower(s: Seq<char>) -> Seq<char> {
    s.map_values(|c: char| lower_char(c))
}

/// Which metric a request string denotes, after case folding:
/// "cosine" is Cosine, "ip" and "inner_product" are IP, and anything else
/// (the empty string included) falls back to L2.
pub open spec fn metric_of_str(s: Seq<char>) -> Metric {
    if lower(s) == "cosine"@ {
        Metric::Cosine
    } else if lower(s) == "ip"@ || lower(s) == "inner_product"@ {
        Metric::IP
    } else {
        Metric::L2
    }
}

impl Metric {
    /// Parses a metric name case-insensitively, defaulting to L2.
    pub fn from_str(s: &str) -> (m: Metric)
        ensures
            m == metric_of_str(s@),
    {
        proof {
            reveal_strlit("cosine");
            reveal_strlit("ip");
            reveal_strlit("inner_product");
        }
        if str_eq_ci(s, "cosine") {
            Metric::Cosine
        } else if str_eq_ci(s, "ip") || str_eq_ci(s, "inner_product") {
            Metric::IP
        } else {
            Metric::L2
        }
    }
}

/// Case-insensitive (ASCII) comparison of `s` with an already-lowercase `lit`.
fn str_eq_ci(s: &str, lit: &str) -> (r: bool)
    requires
        forall|i: int| 0 <= i < lit@.len() ==> lower_char(#[trigger] lit@[i]) == lit@[i],
    ensures
        r == (lower(s@) == lit@),
{
    let n = s.unicode_len();
    if n != lit.unicode_len() {
        assert(lower(s@).len() == s@.len());
        return false;
    }
    let mut i: usize = 0;
    while i < n
        invariant
            0 <= i <= n,
            n == s@.len() == lit@.len(),
            forall|j: int| 0 <= j < i ==> lower_char(#[trigger] s@[j]) == lit@[j],
            forall|j: int| 0 <= j < lit@.len() ==> lower_char(#[trigger] lit@[j]) == lit@[j],
        decreases n - i,
    {
        let c = s.get_char(i);
        let d = lit.get_char(i);
        if !char_eq_ci(c, d) {
            assert(lower(s@)[i as int] == lower_char(s@[i as int]));
            return false;
        }
        i += 1;
    }
    assert(lower(s@) =~= lit@);
    true
}

/// Whether `c` lowercases to `d`, for `d` already lowercase.
fn char_eq_ci(c: char, d: char) -> (r: bool)
    requires
        lower_char(d) == d,
    ensures
        r == (lower_char(c) == d),
{
    if 'A' <= c && c <= 'Z' {
        let b: u8 = (c as u8) + 32;
        (b as char) == d
    } else {
        c == d
    }
}


/// Character-for-character string equality.
pub fn str_eq(a: &str, b: &str) -> (r: bool)
    ensures
        r == (a@ == b@),
{
    let n = a.unicode_len();
    if n != b.unicode_len() {
        return false;
    }
    let mut i: usize = 0;
    while i < n
        invariant
            0 <= i <= n,
            n == a@.len() == b@.len(),
            forall|j: int| 0 <= j < i ==> a@[j] == b@[j],
        decreases n - i,
    {
        if a.get_char(i) != b.get_char(i) {
            return false;
        }
        i += 1;
    }
    proof {
        assert(a@ =~= b@);
    }
    true
}


/// What a boolean configuration string denotes, after case folding:
/// "1", "true", "yes", "on" mean true; "0", "false", "no", "off" mean
/// false; anything else means nothing.
pub open spec fn bool_of_str(s: Seq<char>) -> Option<bool> {
    if lower(s) == "1"@ || lower(s) == "true"@ || lower(s) == "yes"@ || lower(s) == "on"@ {
        Some(true)
    } else if lower(s) == "0"@ || lower(s) == "false"@ || lower(s) == "no"@ || lower(s)
        == "off"@ {
        Some(false)
    } else {
        None
    }
}

/// Parses a boolean configuration value, case-insensitively.
pub fn parse_bool(input: &str) -> (r: Option<bool>)
    ensures
        r == bool_of_str(input@),
{
    proof {
        reveal_strlit("1");
        reveal_strlit("true");
        reveal_strlit("yes");
        reveal_strlit("on");
        reveal_strlit("0");
        reveal_strlit("false");
        reveal_strlit("no");
        reveal_strlit("off");
    }
    if str_eq_ci(input, "1") || str_eq_ci(input, "true") || str_eq_ci(input, "yes")
        || str_eq_ci(input, "on") {
        Some(true)
    } else if str_eq_ci(input, "0") || str_eq_ci(input, "false") || str_eq_ci(input, "no")
        || str_eq_ci(input, "off") {
        Some(false)
    } else {
        None
    }
}

} // verus!
