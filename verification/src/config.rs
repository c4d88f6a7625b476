//! Runtime configuration: its validation and the overrides that environment
//! variables apply to it.
use vstd::prelude::*;
use crate::text::{chars_of, push_str, string_from_chars, trim, trimmed_range};

verus! {

/// Settings read from a configuration file; every field may be missing.
#[derive(Debug, Clone)]
pub struct RuntimeConfig {
    pub num_clients: Option<usize>,
    pub num_storagers: Option<usize>,
    pub ads_mode: Option<String>,
    pub manager_addr: Option<String>,
    pub storager_addrs: Option<Vec<String>>,
    pub client_addrs: Option<Vec<String>>,
}

pub open spec fn opt_str(o: Option<String>) -> Option<Seq<char>> {
    match o {
        Some(s) => Some(s@),
        None => None,
    }
}

pub open spec fn opt_strs(o: Option<Vec<String>>) -> Option<Seq<Seq<char>>> {
    match o {
        Some(v) => Some(v@.map_values(|s: String| s@)),
        None => None,
    }
}

/// What `validate` answers: the manager address must be present and
/// non-empty, then the storage node addresses must be present and not none.
pub open spec fn validation(manager_addr: Option<Seq<char>>, storager_addrs: Option<Seq<Seq<char>>>) -> Result<(), Seq<char>> {
    if manager_addr is None || manager_addr.unwrap().len() == 0 {
        Err("manager_addr missing or empty"@)
    } else if storager_addrs is None || storager_addrs.unwrap().len() == 0 {
        Err("storager_addrs missing or empty"@)
    } else {
        Ok(())
    }
}

/// Only ASCII decimal digits.
pub open spec fn all_digits(s: Seq<char>) -> bool {
    forall|i: int| 0 <= i < s.len() ==> '0' <= #[trigger] s[i] && s[i] <= '9'
}

/// The number that decimal digits spell.
pub open spec fn digits_value(s: Seq<char>) -> nat
    decreases s.len(),
{
    if s.len() == 0 {
        0
    } else {
        digits_value(s.drop_last()) * 10 + ((s.last() as int) - 48) as nat
    }
}

/// `s` without one leading `+`.
pub open spec fn sign_stripped(s: Seq<char>) -> Seq<char> {
    if s.len() > 0 && s[0] == '+' {
        s.drop_first()
    } else {
        s
    }
}

/// What `str::parse::<usize>` gives: an optional `+` followed by at least one
/// digit and nothing else, with a value that fits.
pub open spec fn parse_usize_spec(s: Seq<char>) -> Option<usize> {
    let d = sign_stripped(s);
    if d.len() > 0 && all_digits(d) && digits_value(d) <= usize::MAX {
        Some(digits_value(d) as usize)
    } else {
        None
    }
}

proof fn lemma_digits_value_prefix(s: Seq<char>, j: int)
    requires
        all_digits(s),
        0 <= j <= s.len(),
    ensures
        digits_value(s.take(j)) <= digits_value(s),
    decreases s.len(),
{
    if j < s.len() {
        let init = s.drop_last();
        assert(all_digits(init)) by {
            assert forall|i: int| 0 <= i < init.len() implies '0' <= #[trigger] init[i] && init[i] <= '9' by {
                assert(init[i] == s[i]);
            }
        }
        assert(s.take(j) =~= init.take(j));
        lemma_digits_value_prefix(init, j);
        assert(s.last() == s[s.len() - 1]);
    } else {
        assert(s.take(j) =~= s);
    }
}

/// Parses an optional `+` followed by decimal digits.
pub fn parse_usize(s: &str) -> (r: Option<usize>)
    ensures
        r == parse_usize_spec(s@),
{
    let cs = chars_of(s);
    let start: usize = if cs.len() > 0 && cs[0] == '+' {
        1
    } else {
        0
    };
    let ghost d = sign_stripped(s@);
    assert(d =~= s@.skip(start as int));
    if start >= cs.len() {
        return None;
    }
    let mut i = start;
    while i < cs.len()
        invariant
            start <= i <= cs@.len(),
            cs@ == s@,
            d == s@.skip(start as int),
            d == sign_stripped(s@),
            forall|k: int| 0 <= k < i - start ==> '0' <= #[trigger] d[k] && d[k] <= '9',
        decreases cs@.len() - i,
    {
        if cs[i] < '0' || cs[i] > '9' {
            assert(d[i - start] == cs@[i as int]);
            assert(!('0' <= d[i - start] && d[i - start] <= '9'));
            assert(!all_digits(d));
            return None;
        }
        assert(d[i - start] == cs@[i as int]);
        i = i + 1;
    }
    assert(all_digits(d));
    let mut value: usize = 0;
    let mut j = start;
    while j < cs.len()
        invariant
            start <= j <= cs@.len(),
            cs@ == s@,
            d == s@.skip(start as int),
            d == sign_stripped(s@),
            all_digits(d),
            value == digits_value(d.take(j - start)),
        decreases cs@.len() - j,
    {
        proof {
            assert(d[j - start] == cs@[j as int]);
            assert('0' <= d[j - start] && d[j - start] <= '9');
            assert(d.take(j - start + 1).drop_last() =~= d.take(j - start));
            assert(d.take(j - start + 1).last() == cs@[j as int]);
        }
        let digit = (cs[j] as u32 - 48) as usize;
        assert(digit == (cs@[j as int] as int) - 48);
        let times = value.checked_mul(10);
        match times {
            Some(t) => match t.checked_add(digit) {
                Some(v) => {
                    value = v;
                },
                None => {
                    proof {
                        lemma_digits_value_prefix(d, j - start + 1);
                    }
                    return None;
                },
            },
            None => {
                proof {
                    lemma_digits_value_prefix(d, j - start + 1);
                }
                return None;
            },
        }
        j = j + 1;
    }
    assert(d.take(cs@.len() - start) =~= d);
    Some(value)
}

/// What `str::parse::<u64>` gives: an optional `+` followed by at least one
/// digit and nothing else, with a value that fits.
pub open spec fn parse_u64_spec(s: Seq<char>) -> Option<u64> {
    let d = sign_stripped(s);
    if d.len() > 0 && all_digits(d) && digits_value(d) <= u64::MAX {
        Some(digits_value(d) as u64)
    } else {
        None
    }
}

/// Parses an optional `+` followed by decimal digits.
pub fn parse_u64(s: &str) -> (r: Option<u64>)
    ensures
        r == parse_u64_spec(s@),
{
    let cs = chars_of(s);
    let start: usize = if cs.len() > 0 && cs[0] == '+' {
        1
    } else {
        0
    };
    let ghost d = sign_stripped(s@);
    assert(d =~= s@.skip(start as int));
    if start >= cs.len() {
        return None;
    }
    let mut i = start;
    while i < cs.len()
        invariant
            start <= i <= cs@.len(),
            cs@ == s@,
            d == s@.skip(start as int),
            d == sign_stripped(s@),
            forall|k: int| 0 <= k < i - start ==> '0' <= #[trigger] d[k] && d[k] <= '9',
        decreases cs@.len() - i,
    {
        if cs[i] < '0' || cs[i] > '9' {
            assert(d[i - start] == cs@[i as int]);
            assert(!('0' <= d[i - start] && d[i - start] <= '9'));
            assert(!all_digits(d));
            return None;
        }
        assert(d[i - start] == cs@[i as int]);
        i = i + 1;
    }
    assert(all_digits(d));
    let mut value: u64 = 0;
    let mut j = start;
    while j < cs.len()
        invariant
            start <= j <= cs@.len(),
            cs@ == s@,
            d == s@.skip(start as int),
            d == sign_stripped(s@),
            all_digits(d),
            value == digits_value(d.take(j - start)),
        decreases cs@.len() - j,
    {
        proof {
            assert(d[j - start] == cs@[j as int]);
            assert('0' <= d[j - start] && d[j - start] <= '9');
            assert(d.take(j - start + 1).drop_last() =~= d.take(j - start));
            assert(d.take(j - start + 1).last() == cs@[j as int]);
        }
        let digit = (cs[j] as u32 - 48) as u64;
        assert(digit == (cs@[j as int] as int) - 48);
        let times = value.checked_mul(10);
        match times {
            Some(t) => match t.checked_add(digit) {
                Some(v) => {
                    value = v;
                },
                None => {
                    proof {
                        lemma_digits_value_prefix(d, j - start + 1);
                    }
                    return None;
                },
            },
            None => {
                proof {
                    lemma_digits_value_prefix(d, j - start + 1);
                }
                return None;
            },
        }
        j = j + 1;
    }
    assert(d.take(cs@.len() - start) =~= d);
    Some(value)
}

/// The pieces of `s` between commas (one piece for a string without commas).
pub open spec fn split_commas(s: Seq<char>) -> Seq<Seq<char>>
    decreases s.len(),
{
    if s.len() == 0 {
        seq![Seq::<char>::empty()]
    } else {
        let p = split_commas(s.drop_last());
        if s.last() == ',' {
            p.push(Seq::<char>::empty())
        } else {
            p.update(p.len() - 1, p.last().push(s.last()))
        }
    }
}

/// The non-empty trimmed pieces of a comma-separated list.
pub open spec fn address_list(s: Seq<char>) -> Seq<Seq<char>> {
    split_commas(s).map_values(|p: Seq<char>| trim(p)).filter(|p: Seq<char>| p.len() > 0)
}

/// Splits a comma-separated list, trims each piece and drops the empty ones.
pub fn parse_address_list(s: &str) -> (r: Vec<String>)
    ensures
        r@.map_values(|x: String| x@) == address_list(s@),
{
    let cs = chars_of(s);
    let mut pieces: Vec<Vec<char>> = Vec::new();
    pieces.push(Vec::new());
    let mut i: usize = 0;
    assert(s@.take(0) =~= Seq::<char>::empty());
    assert(pieces@.map_values(|p: Vec<char>| p@) =~= split_commas(s@.take(0)));
    while i < cs.len()
        invariant
            i <= cs@.len(),
            cs@ == s@,
            pieces@.len() >= 1,
            pieces@.map_values(|p: Vec<char>| p@) == split_commas(s@.take(i as int)),
        decreases cs@.len() - i,
    {
        let ghost before = pieces@.map_values(|p: Vec<char>| p@);
        proof {
            assert(s@.take(i + 1).drop_last() =~= s@.take(i as int));
            assert(s@.take(i + 1).last() == cs@[i as int]);
        }
        if cs[i] == ',' {
            pieces.push(Vec::new());
            assert(pieces@.map_values(|p: Vec<char>| p@) =~= before.push(Seq::<char>::empty()));
        } else {
            let last = pieces.len() - 1;
            let mut cur = pieces.pop().unwrap();
            cur.push(cs[i]);
            pieces.push(cur);
            assert(pieces@.map_values(|p: Vec<char>| p@) =~= before.update(
                last as int,
                before[last as int].push(cs@[i as int]),
            ));
        }
        i = i + 1;
    }
    assert(s@.take(cs@.len() as int) =~= s@);
    let ghost ps = split_commas(s@);
    let ghost trimmed = ps.map_values(|p: Seq<char>| trim(p));
    let ghost keep = |p: Seq<char>| p.len() > 0;
    let mut r: Vec<String> = Vec::new();
    let mut k: usize = 0;
    while k < pieces.len()
        invariant
            k <= pieces@.len(),
            pieces@.map_values(|p: Vec<char>| p@) == ps,
            trimmed == ps.map_values(|p: Seq<char>| trim(p)),
            keep == (|p: Seq<char>| p.len() > 0),
            r@.map_values(|x: String| x@) == trimmed.take(k as int).filter(keep),
        decreases pieces@.len() - k,
    {
        proof {
            reveal(Seq::filter);
            assert(trimmed.take(k + 1).drop_last() =~= trimmed.take(k as int));
            assert(pieces@[k as int]@ == ps[k as int]);
        }
        let piece = &pieces[k];
        let t = trimmed_range(piece, 0, piece.len());
        assert(piece@.subrange(0, piece@.len() as int) =~= piece@);
        if t.len() > 0 {
            let ghost before = r@.map_values(|x: String| x@);
            r.push(string_from_chars(t.as_slice()));
            assert(r@.map_values(|x: String| x@) =~= before.push(trimmed[k as int]));
        }
        k = k + 1;
    }
    assert(trimmed.take(pieces@.len() as int) =~= trimmed);
    r
}

/// A number setting after an environment override: replaced when the
/// variable is set and parses.
pub open spec fn number_override(old: Option<usize>, env: Option<Seq<char>>) -> Option<usize> {
    match env {
        Some(v) => match parse_usize_spec(v) {
            Some(n) => Some(n),
            None => old,
        },
        None => old,
    }
}

/// A list setting after an environment override: replaced when the variable
/// is set and lists at least one address.
pub open spec fn list_override(old: Option<Seq<Seq<char>>>, env: Option<Seq<char>>) -> Option<Seq<Seq<char>>> {
    match env {
        Some(v) => if address_list(v).len() > 0 {
            Some(address_list(v))
        } else {
            old
        },
        None => old,
    }
}

pub open spec fn opt_ref_str(o: Option<&str>) -> Option<Seq<char>> {
    match o {
        Some(s) => Some(s@),
        None => None,
    }
}

impl RuntimeConfig {
    /// Checks that the manager address and the storage node addresses are
    /// given.
    pub fn validate(&self) -> (r: Result<(), String>)
        ensures
            match r {
                Ok(()) => validation(opt_str(self.manager_addr), opt_strs(self.storager_addrs)) is Ok,
                Err(e) => validation(opt_str(self.manager_addr), opt_strs(self.storager_addrs))
                    == Err::<(), Seq<char>>(e@),
            },
    {
        let manager_missing = match &self.manager_addr {
            Some(s) => s.as_str().as_bytes().len() == 0,
            None => true,
        };
        if manager_missing {
            let mut cs: Vec<char> = Vec::new();
            push_str(&mut cs, "manager_addr missing or empty");
            return Err(string_from_chars(cs.as_slice()));
        }
        let storagers_missing = match &self.storager_addrs {
            Some(v) => v.len() == 0,
            None => true,
        };
        if storagers_missing {
            let mut cs: Vec<char> = Vec::new();
            push_str(&mut cs, "storager_addrs missing or empty");
            return Err(string_from_chars(cs.as_slice()));
        }
        Ok(())
    }

    /// Applies the values of the environment variables `SYS_NUM_CLIENTS`,
    /// `SYS_NUM_STORAGERS`, `SYS_ADS_MODE`, `SYS_MANAGER_ADDR`,
    /// `SYS_STORAGER_ADDRS` and `SYS_CLIENT_ADDRS` (each `None` when unset):
    /// numbers replace a setting when they parse, texts always, address lists
    /// when they name at least one address.
    pub fn apply_env_overrides(
        &mut self,
        num_clients: Option<&str>,
        num_storagers: Option<&str>,
        ads_mode: Option<String>,
        manager_addr: Option<String>,
        storager_addrs: Option<&str>,
        client_addrs: Option<&str>,
    )
        ensures
            final(self).num_clients == number_override(old(self).num_clients, opt_ref_str(num_clients)),
            final(self).num_storagers == number_override(
                old(self).num_storagers,
                opt_ref_str(num_storagers),
            ),
            opt_str(final(self).ads_mode) == match ads_mode {
                Some(v) => Some(v@),
                None => opt_str(old(self).ads_mode),
            },
            opt_str(final(self).manager_addr) == match manager_addr {
                Some(v) => Some(v@),
                None => opt_str(old(self).manager_addr),
            },
            opt_strs(final(self).storager_addrs) == list_override(
                opt_strs(old(self).storager_addrs),
                opt_ref_str(storager_addrs),
            ),
            opt_strs(final(self).client_addrs) == list_override(
                opt_strs(old(self).client_addrs),
                opt_ref_str(client_addrs),
            ),
    {
        if let Some(v) = num_clients {
            if let Some(n) = parse_usize(v) {
                self.num_clients = Some(n);
            }
        }
        if let Some(v) = num_storagers {
            if let Some(n) = parse_usize(v) {
                self.num_storagers = Some(n);
            }
        }
        if let Some(v) = ads_mode {
            self.ads_mode = Some(v);
        }
        if let Some(v) = manager_addr {
            self.manager_addr = Some(v);
        }
        if let Some(v) = storager_addrs {
            let addrs = parse_address_list(v);
            if addrs.len() > 0 {
                self.storager_addrs = Some(addrs);
            }
        }
        if let Some(v) = client_addrs {
            let addrs = parse_address_list(v);
            if addrs.len() > 0 {
                self.client_addrs = Some(addrs);
            }
        }
    }
}

/// An optional number setting: when set, the value if it parses as a
/// number above zero and nothing otherwise; when unset, the default.
pub fn optional_positive_u64_setting(value: Option<&str>, default: Option<u64>) -> (r: Option<u64>)
    ensures
        r == match value {
            Some(v) => match parse_u64_spec(v@) {
                Some(n) => if n > 0 {
                    Some(n)
                } else {
                    None
                },
                None => None,
            },
            None => default,
        },
{
    match value {
        Some(v) => match parse_u64(v) {
            Some(n) => if n > 0 {
                Some(n)
            } else {
                None
            },
            None => None,
        },
        None => default,
    }
}

} // verus!
