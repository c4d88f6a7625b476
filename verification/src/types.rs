//! Shared value types: proofs, ADS and set-proof modes, system configuration.
use vstd::prelude::*;
use crate::text::{ascii_lower, lowercase_spec, push_str, str_eq, string_from_chars, to_lowercase};

verus! {

/// Proof bytes as a storage node returns them.
#[derive(Debug, Clone)]
pub struct Proof {
    pub data: Vec<u8>,
}

/// The authenticated data structure a storage node keeps.
#[derive(Debug, Clone, Copy, PartialEq, Eq, Hash, Structural)]
pub enum AdsMode {
    Mpt,
    Mest,
    AccTrie,
    AccTree,
}

/// How set operations over query results are proved.
#[derive(Debug, Clone, Copy, PartialEq, Eq, Hash, Structural)]
pub enum SetProofMode {
    Polynomial,
    Accumulator,
}

/// A `Result` with its error message as characters.
pub open spec fn result_view<T>(r: Result<T, String>) -> Result<T, Seq<char>> {
    match r {
        Ok(v) => Ok(v),
        Err(e) => Err(e@),
    }
}

pub open spec fn ads_mode_name(m: AdsMode) -> Seq<char> {
    match m {
        AdsMode::Mpt => "mpt"@,
        AdsMode::Mest => "mest"@,
        AdsMode::AccTrie => "acctrie"@,
        AdsMode::AccTree => "acctree"@,
    }
}

/// The ADS mode an already lower-cased name stands for (`accumulator` is
/// another name of `acctrie`).
pub open spec fn ads_mode_of(lower: Seq<char>) -> Result<AdsMode, Seq<char>> {
    if lower == "mpt"@ {
        Ok(AdsMode::Mpt)
    } else if lower == "mest"@ {
        Ok(AdsMode::Mest)
    } else if lower == "acctrie"@ || lower == "accumulator"@ {
        Ok(AdsMode::AccTrie)
    } else if lower == "acctree"@ {
        Ok(AdsMode::AccTree)
    } else {
        Err("Unknown ADS mode: "@ + lower + ". Expected mpt|mest|acctrie|acctree"@)
    }
}

pub open spec fn set_proof_mode_name(m: SetProofMode) -> Seq<char> {
    match m {
        SetProofMode::Polynomial => "polynomial"@,
        SetProofMode::Accumulator => "accumulator"@,
    }
}

/// The set-proof mode an already lower-cased name stands for (`poly` and
/// `acc` are short names).
pub open spec fn set_proof_mode_of(lower: Seq<char>) -> Result<SetProofMode, Seq<char>> {
    if lower == "polynomial"@ || lower == "poly"@ {
        Ok(SetProofMode::Polynomial)
    } else if lower == "accumulator"@ || lower == "acc"@ {
        Ok(SetProofMode::Accumulator)
    } else {
        Err("Unknown set proof mode: "@ + lower + ". Expected polynomial|accumulator"@)
    }
}

impl AdsMode {
    pub fn as_str(&self) -> (s: &'static str)
        ensures
            s@ == ads_mode_name(*self),
    {
        match self {
            AdsMode::Mpt => "mpt",
            AdsMode::Mest => "mest",
            AdsMode::AccTrie => "acctrie",
            AdsMode::AccTree => "acctree",
        }
    }
}

impl SetProofMode {
    pub fn as_str(&self) -> (s: &'static str)
        ensures
            s@ == set_proof_mode_name(*self),
    {
        match self {
            SetProofMode::Polynomial => "polynomial",
            SetProofMode::Accumulator => "accumulator",
        }
    }
}

/// The ADS mode named by a lower-case string.
pub fn ads_mode_from_lowercase(lower: &str) -> (r: Result<AdsMode, String>)
    ensures
        result_view(r) == ads_mode_of(lower@),
{
    if str_eq(lower, "mpt") {
        Ok(AdsMode::Mpt)
    } else if str_eq(lower, "mest") {
        Ok(AdsMode::Mest)
    } else if str_eq(lower, "acctrie") || str_eq(lower, "accumulator") {
        Ok(AdsMode::AccTrie)
    } else if str_eq(lower, "acctree") {
        Ok(AdsMode::AccTree)
    } else {
        let mut cs: Vec<char> = Vec::new();
        push_str(&mut cs, "Unknown ADS mode: ");
        push_str(&mut cs, lower);
        push_str(&mut cs, ". Expected mpt|mest|acctrie|acctree");
        Err(string_from_chars(cs.as_slice()))
    }
}

/// The ADS mode a name stands for, in any case.
pub fn parse_ads_mode(value: &str) -> (r: Result<AdsMode, String>)
    ensures
        result_view(r) == ads_mode_of(lowercase_spec(value@)),
        vstd::utf8::is_ascii_chars(value@) ==> result_view(r) == ads_mode_of(
            value@.map_values(|c: char| ascii_lower(c)),
        ),
{
    let lower = to_lowercase(value);
    ads_mode_from_lowercase(lower.as_str())
}

/// The set-proof mode named by a lower-case string.
pub fn set_proof_mode_from_lowercase(lower: &str) -> (r: Result<SetProofMode, String>)
    ensures
        result_view(r) == set_proof_mode_of(lower@),
{
    if str_eq(lower, "polynomial") || str_eq(lower, "poly") {
        Ok(SetProofMode::Polynomial)
    } else if str_eq(lower, "accumulator") || str_eq(lower, "acc") {
        Ok(SetProofMode::Accumulator)
    } else {
        let mut cs: Vec<char> = Vec::new();
        push_str(&mut cs, "Unknown set proof mode: ");
        push_str(&mut cs, lower);
        push_str(&mut cs, ". Expected polynomial|accumulator");
        Err(string_from_chars(cs.as_slice()))
    }
}

/// The set-proof mode a name stands for, in any case.
pub fn parse_set_proof_mode(value: &str) -> (r: Result<SetProofMode, String>)
    ensures
        result_view(r) == set_proof_mode_of(lowercase_spec(value@)),
        vstd::utf8::is_ascii_chars(value@) ==> result_view(r) == set_proof_mode_of(
            value@.map_values(|c: char| ascii_lower(c)),
        ),
{
    let lower = to_lowercase(value);
    set_proof_mode_from_lowercase(lower.as_str())
}

impl std::str::FromStr for AdsMode {
    type Err = String;

    fn from_str(value: &str) -> (r: Result<AdsMode, String>)
        ensures
            result_view(r) == ads_mode_of(lowercase_spec(value@)),
    {
        parse_ads_mode(value)
    }
}

impl std::str::FromStr for SetProofMode {
    type Err = String;

    fn from_str(value: &str) -> (r: Result<SetProofMode, String>)
        ensures
            result_view(r) == set_proof_mode_of(lowercase_spec(value@)),
    {
        parse_set_proof_mode(value)
    }
}

/// The shape of a deployment: its clients and storage nodes, and the modes
/// they run in.
#[derive(Debug, Clone)]
pub struct SystemConfig {
    pub num_clients: usize,
    pub num_storagers: usize,
    pub ads_mode: AdsMode,
    pub set_proof_mode: SetProofMode,
    pub manager_addr: String,
    pub storager_addrs: Vec<String>,
    pub client_addrs: Vec<String>,
}

/// An ADS mode's name is ASCII and reads back as that mode: parsing
/// `as_str` of a mode gives the mode.
pub proof fn ads_mode_name_parses_back(m: AdsMode)
    ensures
        vstd::utf8::is_ascii_chars(ads_mode_name(m)),
        ads_mode_of(ads_mode_name(m).map_values(|c: char| ascii_lower(c))) == Ok::<AdsMode, Seq<char>>(m),
{
    reveal_strlit("mpt");
    reveal_strlit("mest");
    reveal_strlit("acctrie");
    reveal_strlit("accumulator");
    reveal_strlit("acctree");
    let n = ads_mode_name(m);
    assert(n.map_values(|c: char| ascii_lower(c)) =~= n);
    assert("mest"@ != "mpt"@) by {
        assert("mest"@.len() != "mpt"@.len());
    }
    assert("acctrie"@ != "mpt"@ && "acctrie"@ != "mest"@) by {
        assert("acctrie"@[0] != "mpt"@[0]);
        assert("acctrie"@[0] != "mest"@[0]);
    }
    assert("acctree"@ != "mpt"@ && "acctree"@ != "mest"@ && "acctree"@ != "acctrie"@
        && "acctree"@ != "accumulator"@) by {
        assert("acctree"@[0] != "mpt"@[0]);
        assert("acctree"@[0] != "mest"@[0]);
        assert("acctree"@[5] != "acctrie"@[5]);
        assert("acctree"@.len() != "accumulator"@.len());
    }
}

/// A set-proof mode's name is ASCII and reads back as that mode: parsing
/// `as_str` of a mode gives the mode.
pub proof fn set_proof_mode_name_parses_back(m: SetProofMode)
    ensures
        vstd::utf8::is_ascii_chars(set_proof_mode_name(m)),
        set_proof_mode_of(set_proof_mode_name(m).map_values(|c: char| ascii_lower(c)))
            == Ok::<SetProofMode, Seq<char>>(m),
{
    reveal_strlit("polynomial");
    reveal_strlit("poly");
    reveal_strlit("accumulator");
    reveal_strlit("acc");
    let n = set_proof_mode_name(m);
    assert(n.map_values(|c: char| ascii_lower(c)) =~= n);
}

} // verus!
