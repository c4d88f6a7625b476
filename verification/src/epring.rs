//! The extended prefix ring: keywords are placed by the hexadecimal digest of
//! their XXH3-128 hash. The ring starts with one root entry per hexadecimal
//! prefix of a fixed length, owned cyclically by the storage nodes; an entry
//! that receives too many keywords splits into sixteen children, one per next
//! hexadecimal digit.
use vstd::prelude::*;
use crate::hashing::{xxh3_128, xxh3_128_spec};
use vstd::string::StringSliceAdditionalSpecFns;
use crate::text::{
    chars_of, decimal, hex_digit, hex_digit_char, hex_of_bytes, push_decimal, push_decimal_u64, push_hex,
    push_str, string_from_chars,
};

verus! {

/// The longest prefix an entry may have: the 32 hexadecimal digits of a digest.
pub const MAX_PREFIX_LEN: usize = 32;

/// `16` to the power `k`.
pub open spec fn pow16(k: nat) -> nat
    decreases k,
{
    if k == 0 {
        1
    } else {
        16 * pow16((k - 1) as nat)
    }
}

pub proof fn lemma_pow16_monotone(a: nat, b: nat)
    requires
        a <= b,
    ensures
        pow16(a) <= pow16(b),
        a < b ==> 16 * pow16(a) <= pow16(b),
    decreases b,
{
    if a < b {
        lemma_pow16_monotone(a, (b - 1) as nat);
    }
}

/// The number of hexadecimal digits a root prefix needs so that there are at
/// least as many root entries as nodes.
pub open spec fn minimal_prefix_len_spec(n: nat) -> nat
    decreases n,
{
    if n <= 1 {
        0
    } else {
        1 + minimal_prefix_len_spec(((n + 15) / 16) as nat)
    }
}

/// `minimal_prefix_len_spec(n)` is the least `k` with `16^k >= n`.
pub proof fn lemma_minimal_prefix_len(n: nat)
    ensures
        pow16(minimal_prefix_len_spec(n)) >= n,
        minimal_prefix_len_spec(n) == 0 || pow16((minimal_prefix_len_spec(n) - 1) as nat) < n,
    decreases n,
{
    if n > 1 {
        let m = ((n + 15) / 16) as nat;
        lemma_minimal_prefix_len(m);
    }
}

proof fn lemma_least_power_unique(n: nat, a: nat, b: nat)
    requires
        pow16(a) >= n,
        a == 0 || pow16((a - 1) as nat) < n,
        pow16(b) >= n,
        b == 0 || pow16((b - 1) as nat) < n,
    ensures
        a == b,
{
    if a < b {
        lemma_pow16_monotone(a, (b - 1) as nat);
    } else if b < a {
        lemma_pow16_monotone(b, (a - 1) as nat);
    }
}

/// The root prefix length for `node_count` nodes: the least `k` with
/// `16^k >= node_count`.
fn least_prefix_len(node_count: usize) -> (len: usize)
    ensures
        len == minimal_prefix_len_spec(node_count as nat),
        pow16(len as nat) >= node_count,
        len == 0 || pow16((len - 1) as nat) < node_count,
{
    let mut prefix_len: usize = 0;
    let mut capacity: u128 = 1;
    while capacity < node_count as u128
        invariant
            capacity == pow16(prefix_len as nat),
            prefix_len == 0 || pow16((prefix_len - 1) as nat) < node_count,
            prefix_len <= 16,
        decreases 16 - prefix_len,
    {
        proof {
            assert(pow16(16) == 0x1_0000_0000_0000_0000) by {
                reveal_with_fuel(pow16, 17);
            }
            if prefix_len >= 16 {
                lemma_pow16_monotone(16, prefix_len as nat);
            }
        }
        prefix_len = prefix_len + 1;
        capacity = capacity * 16;
    }
    proof {
        lemma_minimal_prefix_len(node_count as nat);
        lemma_least_power_unique(
            node_count as nat,
            prefix_len as nat,
            minimal_prefix_len_spec(node_count as nat),
        );
    }
    prefix_len
}

/// The root entries for `n` nodes fit in memory.
pub open spec fn ring_fits(n: nat) -> bool {
    n == 0 || pow16(minimal_prefix_len_spec(n)) <= usize::MAX
}

/// The `k` lower-case hexadecimal digits of `v`, most significant first
/// (zero-padded on the left).
pub open spec fn hex_fixed(v: nat, k: nat) -> Seq<char>
    decreases k,
{
    if k == 0 {
        Seq::empty()
    } else {
        hex_fixed(v / 16, (k - 1) as nat).push(hex_digit(v % 16))
    }
}

pub proof fn lemma_hex_fixed_len(v: nat, k: nat)
    ensures
        hex_fixed(v, k).len() == k,
    decreases k,
{
    if k > 0 {
        lemma_hex_fixed_len(v / 16, (k - 1) as nat);
    }
}

pub proof fn lemma_char_nibble_hex_digit(d: nat)
    requires
        d < 16,
    ensures
        char_nibble(hex_digit(d)) == d,
{
}

pub proof fn lemma_hex_text_push(s: Seq<char>, d: nat)
    requires
        is_hex_text(s),
        d < 16,
    ensures
        is_hex_text(s.push(hex_digit(d))),
{
    lemma_char_nibble_hex_digit(d);
    let t = s.push(hex_digit(d));
    assert(t.map_values(|c: char| char_nibble(c)) =~= s.map_values(|c: char| char_nibble(c)).push(
        d as u8,
    ));
    assert(hex_chars(t.map_values(|c: char| char_nibble(c))) =~= hex_chars(
        s.map_values(|c: char| char_nibble(c)),
    ).push(hex_digit(d)));
}

pub proof fn lemma_hex_fixed_is_hex_text(v: nat, k: nat)
    ensures
        is_hex_text(hex_fixed(v, k)),
    decreases k,
{
    if k == 0 {
        assert(hex_fixed(v, k).map_values(|c: char| char_nibble(c)) =~= Seq::<u8>::empty());
        assert(hex_chars(Seq::<u8>::empty()) =~= Seq::<char>::empty());
    } else {
        lemma_hex_fixed_is_hex_text(v / 16, (k - 1) as nat);
        lemma_hex_text_push(hex_fixed(v / 16, (k - 1) as nat), v % 16);
    }
}

/// The `k` hexadecimal digit values of `v`, most significant first.
pub open spec fn fixed_digits(v: nat, k: nat) -> Seq<u8>
    decreases k,
{
    if k == 0 {
        Seq::empty()
    } else {
        fixed_digits(v / 16, (k - 1) as nat).push((v % 16) as u8)
    }
}

pub proof fn lemma_fixed_digits(v: nat, k: nat)
    ensures
        fixed_digits(v, k).len() == k,
        all_nibbles(fixed_digits(v, k)),
        hex_chars(fixed_digits(v, k)) == hex_fixed(v, k),
        v < pow16(k) ==> nibbles_value(fixed_digits(v, k)) == v,
    decreases k,
{
    if k > 0 {
        let k1 = (k - 1) as nat;
        lemma_fixed_digits(v / 16, k1);
        let f = fixed_digits(v, k);
        let f1 = fixed_digits(v / 16, k1);
        assert(f.drop_last() =~= f1);
        assert(all_nibbles(f)) by {
            assert forall|i: int| 0 <= i < f.len() implies #[trigger] f[i] < 16 by {
                if i < f1.len() {
                    assert(f[i] == f1[i]);
                }
            }
        }
        assert(hex_chars(f) =~= hex_chars(f1).push(hex_digit(v % 16)));
        if v < pow16(k) {
            assert(v / 16 < pow16(k1)) by (nonlinear_arith)
                requires
                    v < pow16(k),
                    pow16(k) == 16 * pow16(k1),
            ;
            assert(v == (v / 16) * 16 + v % 16);
        }
    } else {
        assert(hex_chars(fixed_digits(v, k)) =~= hex_fixed(v, k));
    }
}

/// Appends the `k` hexadecimal digits of `v`.
fn push_hex_fixed(out: &mut Vec<char>, v: usize, k: usize)
    ensures
        final(out)@ == old(out)@ + hex_fixed(v as nat, k as nat),
    decreases k,
{
    if k > 0 {
        push_hex_fixed(out, v / 16, k - 1);
        out.push(hex_digit_char((v % 16) as u8));
    }
    assert(final(out)@ =~= old(out)@ + hex_fixed(v as nat, k as nat));
}

/// `format!("{value:0prefix_len$x}")` for a value that fits in `prefix_len`
/// digits; the empty string when `prefix_len` is zero.
fn format_prefix(value: usize, prefix_len: usize) -> (s: String)
    ensures
        s@ == hex_fixed(value as nat, prefix_len as nat),
{
    let mut cs: Vec<char> = Vec::new();
    push_hex_fixed(&mut cs, value, prefix_len);
    assert(cs@ =~= hex_fixed(value as nat, prefix_len as nat));
    string_from_chars(cs.as_slice())
}

/// The value of a hexadecimal digit byte (either case); `0` for any other byte.
pub open spec fn hex_nibble_spec(b: u8) -> u8 {
    if 48 <= b && b <= 57 {
        (b - 48) as u8
    } else if 97 <= b && b <= 102 {
        (b - 87) as u8
    } else if 65 <= b && b <= 70 {
        (b - 55) as u8
    } else {
        0
    }
}

fn hex_nibble(byte: u8) -> (d: u8)
    ensures
        d == hex_nibble_spec(byte),
        d < 16,
{
    if 48 <= byte && byte <= 57 {
        byte - 48
    } else if 97 <= byte && byte <= 102 {
        byte - 87
    } else if 65 <= byte && byte <= 70 {
        byte - 55
    } else {
        0
    }
}

/// The digit values of a byte string read as hexadecimal.
pub open spec fn nibbles_of(bytes: Seq<u8>) -> Seq<u8> {
    bytes.map_values(|b: u8| hex_nibble_spec(b))
}

/// The number whose hexadecimal digits (most significant first) are `ns`.
pub open spec fn nibbles_value(ns: Seq<u8>) -> nat
    decreases ns.len(),
{
    if ns.len() == 0 {
        0
    } else {
        nibbles_value(ns.drop_last()) * 16 + ns.last() as nat
    }
}

pub open spec fn all_nibbles(ns: Seq<u8>) -> bool {
    forall|i: int| 0 <= i < ns.len() ==> #[trigger] ns[i] < 16
}

/// The lower-case hexadecimal characters of digit values.
pub open spec fn hex_chars(ns: Seq<u8>) -> Seq<char> {
    ns.map_values(|d: u8| hex_digit(d as nat))
}

pub proof fn lemma_nibbles_value_bound(ns: Seq<u8>)
    requires
        all_nibbles(ns),
    ensures
        nibbles_value(ns) < pow16(ns.len()),
    decreases ns.len(),
{
    if ns.len() > 0 {
        let init = ns.drop_last();
        assert(all_nibbles(init)) by {
            assert forall|i: int| 0 <= i < init.len() implies #[trigger] init[i] < 16 by {
                assert(init[i] == ns[i]);
            }
        }
        lemma_nibbles_value_bound(init);
        assert(ns.last() < 16) by {
            assert(ns[ns.len() - 1] < 16);
        }
    }
}

/// Formatting the value of a digit string with as many digits gives the
/// digit string back.
pub proof fn lemma_hex_fixed_of_value(ns: Seq<u8>)
    requires
        all_nibbles(ns),
    ensures
        hex_fixed(nibbles_value(ns), ns.len()) == hex_chars(ns),
    decreases ns.len(),
{
    if ns.len() > 0 {
        let init = ns.drop_last();
        assert(all_nibbles(init)) by {
            assert forall|i: int| 0 <= i < init.len() implies #[trigger] init[i] < 16 by {
                assert(init[i] == ns[i]);
            }
        }
        lemma_hex_fixed_of_value(init);
        let v = nibbles_value(ns);
        let last = ns.last();
        assert(last < 16) by {
            assert(ns[ns.len() - 1] < 16);
        }
        assert(v == nibbles_value(init) * 16 + last);
        assert(v / 16 == nibbles_value(init) && v % 16 == last) by (nonlinear_arith)
            requires
                v == nibbles_value(init) * 16 + last,
                last < 16,
        ;
        assert(hex_chars(ns) =~= hex_chars(init).push(hex_digit(last as nat)));
    }
}

/// Reads the first `len` bytes of `bytes` as a hexadecimal number.
fn root_entry_index_from_prefix(bytes: &[u8], len: usize) -> (index: usize)
    requires
        len <= bytes@.len(),
        pow16(len as nat) <= usize::MAX,
    ensures
        index == nibbles_value(nibbles_of(bytes@.take(len as int))),
        index < pow16(len as nat),
{
    let mut index: usize = 0;
    let mut i: usize = 0;
    while i < len
        invariant
            i <= len,
            len <= bytes@.len(),
            pow16(len as nat) <= usize::MAX,
            index == nibbles_value(nibbles_of(bytes@.take(i as int))),
            index < pow16(i as nat),
        decreases len - i,
    {
        let d = hex_nibble(bytes[i]);
        proof {
            lemma_pow16_monotone((i + 1) as nat, len as nat);
            assert(index * 16 + d < pow16((i + 1) as nat)) by (nonlinear_arith)
                requires
                    index < pow16(i as nat),
                    d < 16,
                    pow16((i + 1) as nat) == 16 * pow16(i as nat),
            ;
            assert(nibbles_of(bytes@.take(i + 1)).drop_last() =~= nibbles_of(bytes@.take(i as int)));
        }
        index = index * 16 + d as usize;
        i = i + 1;
    }
    index
}

/// Little-endian bytes of `h`, `count` of them.
pub open spec fn le_bytes(h: nat, count: nat) -> Seq<u8>
    decreases count,
{
    if count == 0 {
        Seq::empty()
    } else {
        seq![(h % 256) as u8] + le_bytes(h / 256, (count - 1) as nat)
    }
}

/// The sixteen bytes of a keyword's digest, as `u128::to_le_bytes` lays them out.
pub open spec fn digest_bytes_spec(keyword: Seq<u8>) -> Seq<u8> {
    le_bytes(xxh3_128_spec(keyword) as nat, 16)
}

/// The hexadecimal digits of a byte string, high digit of each byte first.
pub open spec fn byte_nibbles(bytes: Seq<u8>) -> Seq<u8> {
    Seq::new(
        2 * bytes.len(),
        |i: int|
            if i % 2 == 0 {
                (bytes[i / 2] / 16) as u8
            } else {
                (bytes[i / 2] % 16) as u8
            },
    )
}

/// The 32 hexadecimal digits of a keyword's digest.
pub open spec fn digest_nibbles(keyword: Seq<u8>) -> Seq<u8> {
    byte_nibbles(digest_bytes_spec(keyword))
}

/// The 32-character lower-case hexadecimal digest of a keyword.
pub open spec fn keyword_hex_spec(keyword: Seq<u8>) -> Seq<char> {
    hex_of_bytes(digest_bytes_spec(keyword))
}

proof fn lemma_le_bytes_len(h: nat, count: nat)
    ensures
        le_bytes(h, count).len() == count,
    decreases count,
{
    if count > 0 {
        lemma_le_bytes_len(h / 256, (count - 1) as nat);
    }
}

/// `hex_of_bytes` spells out `byte_nibbles`.
pub proof fn lemma_hex_of_bytes_nibbles(bytes: Seq<u8>)
    ensures
        hex_of_bytes(bytes) == hex_chars(byte_nibbles(bytes)),
        all_nibbles(byte_nibbles(bytes)),
    decreases bytes.len(),
{
    if bytes.len() > 0 {
        let init = bytes.drop_last();
        lemma_hex_of_bytes_nibbles(init);
        let b = bytes.last();
        let bn = byte_nibbles(bytes);
        let inn = byte_nibbles(init);
        assert(bn =~= inn.push((b / 16) as u8).push((b % 16) as u8)) by {
            assert forall|i: int| 0 <= i < bn.len() implies #[trigger] bn[i] == inn.push(
                (b / 16) as u8,
            ).push((b % 16) as u8)[i] by {
                if i < 2 * init.len() {
                    assert(i / 2 < init.len()) by (nonlinear_arith)
                        requires
                            0 <= i < 2 * init.len(),
                    ;
                    assert(bytes[i / 2] == init[i / 2]);
                } else if i == 2 * init.len() {
                    assert(i / 2 == init.len() && i % 2 == 0) by (nonlinear_arith)
                        requires
                            i == 2 * init.len(),
                    ;
                } else {
                    assert(i / 2 == init.len() && i % 2 == 1) by (nonlinear_arith)
                        requires
                            i == 2 * init.len() + 1,
                    ;
                }
            }
        }
        assert(hex_chars(bn) =~= hex_chars(inn).push(hex_digit((b / 16) as nat)).push(
            hex_digit((b % 16) as nat),
        ));
        assert(all_nibbles(bn)) by {
            assert forall|i: int| 0 <= i < bn.len() implies #[trigger] bn[i] < 16 by {
                if i < inn.len() {
                    assert(bn[i] == inn[i]);
                }
            }
        }
    } else {
        assert(hex_chars(byte_nibbles(bytes)) =~= Seq::<char>::empty());
    }
}

/// The digest bytes of a keyword, in little-endian order.
fn digest_from_keyword(keyword: &str) -> (digest: Vec<u8>)
    ensures
        digest@ == digest_bytes_spec(keyword.spec_bytes()),
        digest@.len() == 16,
{
    let h = xxh3_128(keyword.as_bytes());
    let mut x: u128 = h;
    let mut digest: Vec<u8> = Vec::new();
    let mut k: usize = 0;
    proof {
        lemma_le_bytes_len(h as nat, 16);
    }
    while k < 16
        invariant
            k <= 16,
            h == xxh3_128_spec(keyword.spec_bytes()),
            digest@ + le_bytes(x as nat, (16 - k) as nat) == le_bytes(h as nat, 16),
        decreases 16 - k,
    {
        let byte = (x & 0xff) as u8;
        assert(x & 0xff == x % 256 && x >> 8 == x / 256) by (bit_vector);
        let ghost old_digest = digest@;
        let ghost old_x = x;
        digest.push(byte);
        x = x >> 8;
        proof {
            assert(le_bytes(old_x as nat, (16 - k) as nat) == seq![(old_x % 256) as u8] + le_bytes(
                x as nat,
                (16 - (k + 1)) as nat,
            ));
            assert(digest@ + le_bytes(x as nat, (16 - (k + 1)) as nat) =~= old_digest + le_bytes(
                old_x as nat,
                (16 - k) as nat,
            ));
        }
        k = k + 1;
    }
    assert(digest@ =~= le_bytes(h as nat, 16));
    digest
}

} // verus!

verus! {

/// `16^k`, for a `k` where it fits.
fn pow16_exec(k: usize) -> (p: usize)
    requires
        pow16(k as nat) <= usize::MAX,
    ensures
        p == pow16(k as nat),
{
    let mut p: usize = 1;
    let mut j: usize = 0;
    while j < k
        invariant
            j <= k,
            p == pow16(j as nat),
            pow16(k as nat) <= usize::MAX,
        decreases k - j,
    {
        proof {
            lemma_pow16_monotone((j + 1) as nat, k as nat);
        }
        p = p * 16;
        j = j + 1;
    }
    p
}

/// The digit at `index` of a byte string's hexadecimal notation.
fn digest_nibble_at(digest: &[u8], index: usize) -> (d: u8)
    requires
        index < 2 * digest@.len(),
    ensures
        d == byte_nibbles(digest@)[index as int],
        d < 16,
{
    let byte = digest[index / 2];
    assert(byte >> 4 == byte / 16 && byte & 0x0f == byte % 16) by (bit_vector);
    if index % 2 == 0 {
        byte >> 4
    } else {
        byte & 0x0f
    }
}

/// One entry of the ring.
#[derive(Debug, Clone, PartialEq, Eq)]
pub struct EPRingEntry {
    pub prefix: String,
    pub prefix_len: u8,
    pub counter: u64,
    /// Leaf entry: storage node index.
    /// Split entry: index of the first child entry in the entry list.
    pub owner_ref: usize,
    pub split_child_start: Option<usize>,
    pub root_summary: Vec<u8>,
}

/// The value of an entry, with its strings and byte vectors as sequences.
pub struct EntryView {
    pub prefix: Seq<char>,
    pub prefix_len: u8,
    pub counter: u64,
    pub owner_ref: usize,
    pub split_child_start: Option<usize>,
    pub root_summary: Seq<u8>,
}

impl View for EPRingEntry {
    type V = EntryView;

    open spec fn view(&self) -> EntryView {
        EntryView {
            prefix: self.prefix@,
            prefix_len: self.prefix_len,
            counter: self.counter,
            owner_ref: self.owner_ref,
            split_child_start: self.split_child_start,
            root_summary: self.root_summary@,
        }
    }
}

/// Where a keyword goes: the leaf entry and the node that owns it.
#[derive(Debug, Clone, PartialEq, Eq, Structural)]
pub struct EPRingRoute {
    pub entry_index: usize,
    pub node_index: usize,
}

/// What a split did: the parent entry, its owner before the split, and the
/// sixteen new leaves with their owners.
#[derive(Debug, Clone, PartialEq, Eq)]
pub struct EPRingSplitEvent {
    pub parent_entry_index: usize,
    pub original_owner_index: usize,
    pub child_routes: Vec<EPRingRoute>,
}

pub struct SplitEventView {
    pub parent_entry_index: usize,
    pub original_owner_index: usize,
    pub child_routes: Seq<EPRingRoute>,
}

impl View for EPRingSplitEvent {
    type V = SplitEventView;

    open spec fn view(&self) -> SplitEventView {
        SplitEventView {
            parent_entry_index: self.parent_entry_index,
            original_owner_index: self.original_owner_index,
            child_routes: self.child_routes@,
        }
    }
}

pub open spec fn event_view(r: Option<EPRingSplitEvent>) -> Option<SplitEventView> {
    match r {
        Some(e) => Some(e@),
        None => None,
    }
}

pub open spec fn entries_view(es: Seq<EPRingEntry>) -> Seq<EntryView> {
    es.map_values(|e: EPRingEntry| e@)
}

/// Entry `i` is consistent: its prefix has its length; a leaf names an
/// existing node; a split entry points at sixteen later children, one per
/// next digit, each extending its prefix by that digit.
pub open spec fn entry_ok(es: Seq<EntryView>, n: nat, i: int) -> bool {
    let e = es[i];
    &&& e.prefix_len <= 32
    &&& e.prefix.len() == e.prefix_len
    &&& match e.split_child_start {
        None => e.owner_ref < n,
        Some(c) => {
            &&& c == e.owner_ref
            &&& i < c
            &&& c + 16 <= es.len()
            &&& e.prefix_len < 32
            &&& forall|j: int|
                c <= j < c + 16 ==> #[trigger] es[j].prefix_len == e.prefix_len + 1
                    && es[j].prefix == e.prefix.push(hex_digit((j - c) as nat))
        },
    }
}

/// The entries of a new ring for `n` nodes: none without nodes, otherwise
/// one root entry per prefix of the least length `r` with `16^r >= n`, root
/// entry `i` owned by node `i % n`.
pub open spec fn fresh_entries(n: nat) -> Seq<EntryView> {
    if n == 0 {
        Seq::empty()
    } else {
        let r = minimal_prefix_len_spec(n);
        Seq::new(
            pow16(r),
            |i: int|
                EntryView {
                    prefix: hex_fixed(i as nat, r),
                    prefix_len: r as u8,
                    counter: 0,
                    owner_ref: (i % (n as int)) as usize,
                    split_child_start: None,
                    root_summary: Seq::empty(),
                },
        )
    }
}

/// The root entries: one per `root_len`-digit prefix, at the index the prefix
/// spells.
pub open spec fn roots_ok(es: Seq<EntryView>, root_len: nat) -> bool {
    &&& pow16(root_len) <= es.len()
    &&& forall|i: int|
        0 <= i < pow16(root_len) ==> (#[trigger] es[i]).prefix_len == root_len && es[i].prefix
            == hex_fixed(i as nat, root_len)
}

/// The leaf reached from entry `i` by following the digits `ks`, one per
/// level, starting at the digit after the entry's prefix.
pub open spec fn descend(es: Seq<EntryView>, ks: Seq<u8>, i: int) -> Option<EPRingRoute>
    decreases es.len() - i,
{
    if 0 <= i < es.len() {
        match es[i].split_child_start {
            None => Some(EPRingRoute { entry_index: i as usize, node_index: es[i].owner_ref }),
            Some(c) => {
                let pl = es[i].prefix_len as int;
                if i < c && pl < ks.len() && c + ks[pl] < es.len() {
                    descend(es, ks, c + ks[pl])
                } else {
                    None
                }
            },
        }
    } else {
        None
    }
}

/// Following `ks` from entry `i` never needs a digit past the end of `ks`.
pub open spec fn descent_within(es: Seq<EntryView>, ks: Seq<u8>, i: int) -> bool
    decreases es.len() - i,
{
    if 0 <= i < es.len() {
        match es[i].split_child_start {
            None => true,
            Some(c) => {
                let pl = es[i].prefix_len as int;
                &&& pl < ks.len()
                &&& (i < c && c + ks[pl] < es.len()) ==> descent_within(es, ks, c + ks[pl])
            },
        }
    } else {
        true
    }
}

/// The value of a lower-case hexadecimal digit character (`0` for any
/// other character).
pub open spec fn char_nibble(c: char) -> u8 {
    if '0' <= c && c <= '9' {
        ((c as int) - 48) as u8
    } else if 'a' <= c && c <= 'f' {
        ((c as int) - 87) as u8
    } else {
        0
    }
}

/// Only lower-case hexadecimal digits.
pub open spec fn is_hex_text(s: Seq<char>) -> bool {
    s == hex_chars(s.map_values(|c: char| char_nibble(c)))
}

/// Entry `p` is the split entry whose children include entry `j`.
pub open spec fn parent_of(es: Seq<EntryView>, p: int, j: int) -> bool {
    &&& 0 <= p < j
    &&& match es[p].split_child_start {
        Some(c) => c <= j < c + 16,
        None => false,
    }
}

pub open spec fn has_parent(es: Seq<EntryView>, j: int) -> bool {
    exists|p: int| parent_of(es, p, j)
}

/// Every prefix is lower-case hexadecimal and at least as long as the root
/// prefixes, and every entry past the roots is a child of an earlier split
/// entry.
pub open spec fn lineage_ok(es: Seq<EntryView>, r: nat) -> bool {
    &&& forall|j: int| 0 <= j < es.len() ==> (#[trigger] es[j]).prefix_len >= r && is_hex_text(es[j].prefix)
    &&& forall|j: int| pow16(r) <= j < es.len() ==> #[trigger] has_parent(es, j)
}

pub open spec fn min_nat(a: nat, b: nat) -> nat {
    if a < b {
        a
    } else {
        b
    }
}

/// The extended prefix ring.
#[derive(Debug, Clone)]
pub struct EPRing {
    entries: Vec<EPRingEntry>,
    node_names: Vec<String>,
    root_prefix_len: usize,
    split_threshold: u64,
}

impl EPRing {
    /// The entries, in order.
    pub closed spec fn entry_list(&self) -> Seq<EntryView> {
        entries_view(self.entries@)
    }

    /// The node names, in order.
    pub closed spec fn names(&self) -> Seq<Seq<char>> {
        self.node_names@.map_values(|s: String| s@)
    }

    pub closed spec fn root_len(&self) -> nat {
        self.root_prefix_len as nat
    }

    pub closed spec fn threshold(&self) -> u64 {
        self.split_threshold
    }

    /// Room for one more split in the entry list.
    pub open spec fn has_room(&self) -> bool {
        self.entry_list().len() + 16 <= usize::MAX
    }

    /// Well-formed: without nodes there are no entries; otherwise the root
    /// entries come first, one per prefix of the least length that gives every
    /// node a root entry, and every entry is consistent.
    pub closed spec fn wf(&self) -> bool {
        let es = self.entry_list();
        let n = self.node_names@.len();
        &&& self.root_prefix_len <= 16
        &&& (n == 0 ==> es.len() == 0 && self.root_prefix_len == 0)
        &&& (n > 0 ==> self.root_prefix_len == minimal_prefix_len_spec(n) && roots_ok(
            es,
            self.root_prefix_len as nat,
        ))
        &&& forall|i: int| 0 <= i < es.len() ==> #[trigger] entry_ok(es, n, i)
        &&& lineage_ok(es, self.root_prefix_len as nat)
    }

    /// The shape of every ring this library hands out: without nodes there
    /// are no entries; otherwise the root entries come first, one per prefix
    /// of the least length that gives every node a root entry; every entry is
    /// consistent and every entry past the roots descends from a split entry.
    pub proof fn well_formed_ring_shape(&self)
        requires
            self.wf(),
        ensures
            self.root_len() <= 16,
            self.names().len() == 0 ==> self.entry_list().len() == 0 && self.root_len() == 0,
            self.names().len() > 0 ==> self.root_len() == minimal_prefix_len_spec(
                self.names().len(),
            ) && roots_ok(self.entry_list(), self.root_len()),
            forall|i: int|
                0 <= i < self.entry_list().len() ==> #[trigger] entry_ok(
                    self.entry_list(),
                    self.names().len(),
                    i,
                ),
            lineage_ok(self.entry_list(), self.root_len()),
    {
        assert(self.names().len() == self.node_names@.len());
    }

    /// Where the digits `ks` lead: nowhere without entries or with fewer
    /// digits (capped at 32) than the root prefix; otherwise the root entry
    /// they spell, then down one level per digit.
    pub open spec fn route_digits(&self, ks: Seq<u8>) -> Option<EPRingRoute> {
        let r = self.root_len();
        if self.entry_list().len() == 0 || min_nat(ks.len(), 32) < r {
            None
        } else {
            descend(self.entry_list(), ks, nibbles_value(ks.take(r as int)) as int)
        }
    }

    /// Routing by the digits `ks` reads no digit past their end.
    pub open spec fn digits_suffice(&self, ks: Seq<u8>) -> bool {
        let r = self.root_len();
        self.entry_list().len() == 0 || min_nat(ks.len(), 32) < r || descent_within(
            self.entry_list(),
            ks,
            nibbles_value(ks.take(r as int)) as int,
        )
    }

    /// `r` is a leaf entry owned by an existing node, whose prefix spells
    /// the digits `ks` up to its length.
    pub open spec fn routed_to_leaf(&self, r: Option<EPRingRoute>, ks: Seq<u8>) -> bool {
        leaf_route_ok(self.entry_list(), self.names().len(), ks, r)
    }

    /// The root prefix length for `node_count` nodes: the least `k` with
    /// `16^k >= node_count`.
    pub fn minimal_prefix_len(node_count: usize) -> (len: usize)
        ensures
            len == minimal_prefix_len_spec(node_count as nat),
            pow16(len as nat) >= node_count,
            len == 0 || pow16((len - 1) as nat) < node_count,
    {
        least_prefix_len(node_count)
    }

    /// A ring for the given nodes: `16^k` root entries for the least `k` with
    /// `16^k >= node_names.len()`, root entry `i` owned by node `i % n`.
    pub fn new(node_names: &[String], split_threshold: u64) -> (ring: Self)
        requires
            ring_fits(node_names@.len() as nat),
        ensures
            ring.wf(),
            ring.names() == node_names@.map_values(|s: String| s@),
            ring.threshold() == split_threshold,
            ring.entry_list() == fresh_entries(node_names@.len() as nat),
            node_names@.len() == 0 ==> ring.entry_list().len() == 0 && ring.root_len() == 0,
            node_names@.len() > 0 ==> {
                let r = minimal_prefix_len_spec(node_names@.len() as nat);
                &&& ring.root_len() == r
                &&& ring.entry_list().len() == pow16(r)
                &&& forall|i: int|
                    0 <= i < pow16(r) ==> #[trigger] ring.entry_list()[i] == (EntryView {
                        prefix: hex_fixed(i as nat, r),
                        prefix_len: r as u8,
                        counter: 0,
                        owner_ref: (i % (node_names@.len() as int)) as usize,
                        split_child_start: None,
                        root_summary: Seq::empty(),
                    })
            },
    {
        let mut names: Vec<String> = Vec::new();
        let mut k: usize = 0;
        while k < node_names.len()
            invariant
                k <= node_names@.len(),
                names@.len() == k,
                forall|i: int| 0 <= i < k ==> #[trigger] names@[i]@ == node_names@[i]@,
            decreases node_names@.len() - k,
        {
            let s = node_names[k].clone();
            names.push(s);
            k = k + 1;
        }
        assert(names@.map_values(|s: String| s@) =~= node_names@.map_values(|s: String| s@));
        if node_names.len() == 0 {
            let ring = EPRing {
                entries: Vec::new(),
                node_names: names,
                root_prefix_len: 0,
                split_threshold,
            };
            assert(ring.entry_list() =~= Seq::<EntryView>::empty());
            assert(fresh_entries(0) =~= Seq::<EntryView>::empty());
            return ring;
        }
        let n = node_names.len();
        let root_prefix_len = least_prefix_len(n);
        proof {
            lemma_minimal_prefix_len(n as nat);
            assert(root_prefix_len <= 16) by {
                assert(pow16(16) == 0x1_0000_0000_0000_0000) by {
                    reveal_with_fuel(pow16, 17);
                }
                if root_prefix_len > 16 {
                    lemma_pow16_monotone(17, root_prefix_len as nat);
                    assert(pow16(17) == 16 * pow16(16));
                }
            }
        }
        let ghost r = root_prefix_len as nat;
        let count = pow16_exec(root_prefix_len);
        let mut entries: Vec<EPRingEntry> = Vec::new();
        let mut idx: usize = 0;
        while idx < count
            invariant
                r == root_prefix_len,
                r <= 16,
                count == pow16(r),
                count <= usize::MAX,
                n == node_names@.len(),
                n > 0,
                idx <= count,
                entries@.len() == idx,
                forall|i: int|
                    0 <= i < idx ==> #[trigger] entries_view(entries@)[i] == (EntryView {
                        prefix: hex_fixed(i as nat, r),
                        prefix_len: r as u8,
                        counter: 0,
                        owner_ref: (i % n as int) as usize,
                        split_child_start: None,
                        root_summary: Seq::empty(),
                    }),
            decreases count - idx,
        {
            let prefix = format_prefix(idx, root_prefix_len);
            let e = EPRingEntry {
                prefix,
                prefix_len: root_prefix_len as u8,
                counter: 0,
                owner_ref: idx % n,
                split_child_start: None,
                root_summary: Vec::new(),
            };
            let ghost old_entries = entries@;
            entries.push(e);
            proof {
                assert forall|i: int| 0 <= i < idx + 1 implies #[trigger] entries_view(entries@)[i]
                    == (EntryView {
                    prefix: hex_fixed(i as nat, r),
                    prefix_len: r as u8,
                    counter: 0,
                    owner_ref: (i % n as int) as usize,
                    split_child_start: None,
                    root_summary: Seq::empty(),
                }) by {
                    if i < idx {
                        assert(entries@[i] == old_entries[i]);
                        assert(entries_view(old_entries)[i] == entries_view(entries@)[i]);
                    } else {
                        assert(entries@[i] == e);
                        assert(e.root_summary@ =~= Seq::<u8>::empty());
                    }
                }
            }
            idx = idx + 1;
        }
        let ring = EPRing { entries, node_names: names, root_prefix_len, split_threshold };
        proof {
            assert(ring.entry_list() =~= fresh_entries(n as nat)) by {
                assert forall|i: int| 0 <= i < count implies #[trigger] ring.entry_list()[i] == fresh_entries(n as nat)[i] by {
                    assert(ring.entry_list()[i] == entries_view(entries@)[i]);
                }
            }
            let es = ring.entry_list();
            assert(es.len() == count);
            assert forall|i: int| 0 <= i < es.len() implies #[trigger] entry_ok(es, n as nat, i) by {
                assert(es[i] == entries_view(entries@)[i]);
                lemma_hex_fixed_len(i as nat, r);
                assert((i % n as int) < n) by (nonlinear_arith) requires n > 0, 0 <= i;
            }
            assert(roots_ok(es, r));
            assert forall|j: int| 0 <= j < es.len() implies (#[trigger] es[j]).prefix_len >= r && is_hex_text(es[j].prefix) by {
                assert(es[j] == entries_view(entries@)[j]);
                lemma_hex_fixed_is_hex_text(j as nat, r);
            }
        }
        ring
    }
}


/// The UTF-8 bytes of lower-case hexadecimal characters read back as digits
/// give the digits.
pub proof fn lemma_hex_chars_bytes(ns: Seq<u8>)
    requires
        all_nibbles(ns),
    ensures
        vstd::utf8::is_ascii_chars(hex_chars(ns)),
        nibbles_of(vstd::utf8::encode_utf8(hex_chars(ns))) == ns,
{
    let cs = hex_chars(ns);
    assert forall|i: int| 0 <= i < cs.len() implies '\0' <= #[trigger] cs[i] <= '\u{7f}' by {
        assert(ns[i] < 16);
    }
    vstd::utf8::is_ascii_chars_encode_utf8(cs);
    let bs = vstd::utf8::encode_utf8(cs);
    assert forall|i: int| 0 <= i < ns.len() implies #[trigger] nibbles_of(bs)[i] == ns[i] by {
        assert(ns[i] < 16);
        assert(cs[i] as u8 == bs[i]);
        assert(cs[i] == hex_digit(ns[i] as nat));
    }
    assert(nibbles_of(bs) =~= ns);
}

pub proof fn lemma_nibbles_of_all(bytes: Seq<u8>)
    ensures
        all_nibbles(nibbles_of(bytes)),
        nibbles_of(bytes).len() == bytes.len(),
{
}

/// `r` is a leaf entry owned by one of `n` nodes, whose prefix spells the
/// digits `ks` up to its length.
pub open spec fn leaf_route_ok(es: Seq<EntryView>, n: nat, ks: Seq<u8>, r: Option<EPRingRoute>) -> bool {
    match r {
        Some(rt) => {
            let e = es[rt.entry_index as int];
            &&& rt.entry_index < es.len()
            &&& e.split_child_start is None
            &&& rt.node_index == e.owner_ref
            &&& rt.node_index < n
            &&& e.prefix_len <= ks.len()
            &&& e.prefix == hex_chars(ks.take(e.prefix_len as int))
        },
        None => false,
    }
}

/// Following the digits from an entry whose prefix spells the digits so far
/// ends at a leaf owned by a node, whose prefix spells the digits up to its
/// length.
pub proof fn lemma_descend_lands(es: Seq<EntryView>, n: nat, ks: Seq<u8>, i: int)
    requires
        forall|j: int| 0 <= j < es.len() ==> #[trigger] entry_ok(es, n, j),
        all_nibbles(ks),
        0 <= i < es.len(),
        es.len() <= usize::MAX,
        es[i].prefix_len <= ks.len(),
        es[i].prefix == hex_chars(ks.take(es[i].prefix_len as int)),
        descent_within(es, ks, i),
    ensures
        leaf_route_ok(es, n, ks, descend(es, ks, i)),
    decreases es.len() - i,
{
    assert(entry_ok(es, n, i));
    match es[i].split_child_start {
        None => {},
        Some(c) => {
            let pl = es[i].prefix_len as int;
            assert(ks[pl] < 16);
            let j = c + ks[pl];
            assert(j < es.len());
            assert(descend(es, ks, i) == descend(es, ks, j));
            assert(entry_ok(es, n, j));
            assert(es[j].prefix_len == pl + 1);
            assert(hex_chars(ks.take(pl + 1)) =~= hex_chars(ks.take(pl)).push(
                hex_digit(ks[pl] as nat),
            ));
            lemma_descend_lands(es, n, ks, j);
        },
    }
}

/// With at least 32 digits, routing never runs out of digits.
pub proof fn lemma_descent_within_long(es: Seq<EntryView>, n: nat, ks: Seq<u8>, i: int)
    requires
        forall|j: int| 0 <= j < es.len() ==> #[trigger] entry_ok(es, n, j),
        ks.len() >= 32,
    ensures
        descent_within(es, ks, i),
    decreases es.len() - i,
{
    if 0 <= i < es.len() {
        assert(entry_ok(es, n, i));
        match es[i].split_child_start {
            None => {},
            Some(c) => {
                let pl = es[i].prefix_len as int;
                if i < c && c + ks[pl] < es.len() {
                    lemma_descent_within_long(es, n, ks, c + ks[pl]);
                }
            },
        }
    }
}

/// Whether the first (at most 32) characters of a prefix, read as
/// hexadecimal digits, agree with a keyword's digest.
pub open spec fn prefix_matches_spec(keyword: Seq<u8>, prefix: Seq<u8>) -> bool {
    forall|i: int|
        0 <= i < min_nat(prefix.len(), 32) ==> #[trigger] hex_nibble_spec(prefix[i])
            == digest_nibbles(keyword)[i]
}

/// A prefix of lower-case hexadecimal digits, at most 32 of them, matches a
/// keyword exactly when the keyword's hexadecimal digest starts with it.
pub proof fn prefix_match_is_digest_prefix(keyword: Seq<u8>, prefix: Seq<char>)
    requires
        is_hex_text(prefix),
        prefix.len() <= 32,
    ensures
        prefix_matches_spec(keyword, vstd::utf8::encode_utf8(prefix)) <==> prefix.is_prefix_of(
            keyword_hex_spec(keyword),
        ),
{
    let ns = prefix.map_values(|c: char| char_nibble(c));
    assert(all_nibbles(ns));
    lemma_hex_chars_bytes(ns);
    let bytes = vstd::utf8::encode_utf8(prefix);
    assert(nibbles_of(bytes) == ns);
    let db = digest_bytes_spec(keyword);
    lemma_le_bytes_len(xxh3_128_spec(keyword) as nat, 16);
    lemma_hex_of_bytes_nibbles(db);
    let dn = digest_nibbles(keyword);
    let hex = keyword_hex_spec(keyword);
    assert(hex == hex_chars(dn));
    assert(dn.len() == 32);
    assert(bytes.len() == prefix.len());
    assert(min_nat(bytes.len(), 32) == prefix.len());
    if prefix_matches_spec(keyword, bytes) {
        assert forall|i: int| 0 <= i < prefix.len() implies #[trigger] hex.subrange(
            0,
            prefix.len() as int,
        )[i] == prefix[i] by {
            assert(hex_nibble_spec(bytes[i]) == dn[i]);
            assert(nibbles_of(bytes)[i] == ns[i]);
        }
        assert(hex.subrange(0, prefix.len() as int) =~= prefix);
    }
    if prefix.is_prefix_of(hex) {
        assert forall|i: int| 0 <= i < min_nat(bytes.len(), 32) implies #[trigger] hex_nibble_spec(
            bytes[i],
        ) == dn[i] by {
            assert(hex.subrange(0, prefix.len() as int)[i] == prefix[i]);
            assert(nibbles_of(bytes)[i] == ns[i]);
            assert(dn[i] < 16);
            assert(ns[i] < 16);
            lemma_char_nibble_hex_digit(dn[i] as nat);
            lemma_char_nibble_hex_digit(ns[i] as nat);
        }
    }
}

/// Any prefix matches a keyword exactly when the keyword's hexadecimal
/// digest starts with the digits that the prefix's first (at most 32)
/// characters name, written in lower case. For a prefix of hexadecimal digits
/// of either case, that is the prefix lower-cased.
pub proof fn prefix_match_is_digest_prefix_of_its_digits(keyword: Seq<u8>, prefix: Seq<u8>)
    ensures
        prefix_matches_spec(keyword, prefix) <==> hex_chars(
            nibbles_of(prefix.take(min_nat(prefix.len(), 32) as int)),
        ).is_prefix_of(keyword_hex_spec(keyword)),
{
    let m = min_nat(prefix.len(), 32) as int;
    let ns = nibbles_of(prefix.take(m));
    let db = digest_bytes_spec(keyword);
    lemma_le_bytes_len(xxh3_128_spec(keyword) as nat, 16);
    lemma_hex_of_bytes_nibbles(db);
    let dn = digest_nibbles(keyword);
    let hex = keyword_hex_spec(keyword);
    let cs = hex_chars(ns);
    assert(hex == hex_chars(dn));
    assert(dn.len() == 32);
    assert(cs.len() == m);
    if prefix_matches_spec(keyword, prefix) {
        assert forall|i: int| 0 <= i < m implies #[trigger] hex.subrange(0, m)[i] == cs[i] by {
            assert(hex_nibble_spec(prefix[i]) == dn[i]);
            assert(ns[i] == hex_nibble_spec(prefix.take(m)[i]));
        }
        assert(hex.subrange(0, m) =~= cs);
    }
    if cs.is_prefix_of(hex) {
        assert forall|i: int| 0 <= i < m implies #[trigger] hex_nibble_spec(prefix[i]) == dn[i] by {
            assert(hex.subrange(0, m)[i] == cs[i]);
            assert(ns[i] == hex_nibble_spec(prefix.take(m)[i]));
            assert(dn[i] < 16);
            assert(ns[i] < 16);
            lemma_char_nibble_hex_digit(dn[i] as nat);
            lemma_char_nibble_hex_digit(ns[i] as nat);
        }
    }
}

impl EPRing {
    /// The 32-character lower-case hexadecimal XXH3-128 digest of a keyword,
    /// bytes in little-endian order.
    pub fn keyword_to_hex(keyword: &str) -> (s: String)
        ensures
            s@ == keyword_hex_spec(keyword.spec_bytes()),
            s@ == hex_chars(digest_nibbles(keyword.spec_bytes())),
            s@.len() == 32,
    {
        let digest = digest_from_keyword(keyword);
        let mut cs: Vec<char> = Vec::new();
        push_hex(&mut cs, digest.as_slice());
        proof {
            lemma_hex_of_bytes_nibbles(digest@);
            assert(cs@ =~= hex_of_bytes(digest@));
        }
        string_from_chars(cs.as_slice())
    }

    /// Whether the first (at most 32) characters of `prefix`, read as
    /// hexadecimal digits of either case (other characters read as `0`),
    /// agree with the keyword's digest.
    pub fn keyword_matches_prefix(keyword: &str, prefix: &str) -> (r: bool)
        ensures
            r == prefix_matches_spec(keyword.spec_bytes(), prefix.spec_bytes()),
    {
        let digest = digest_from_keyword(keyword);
        let bytes = prefix.as_bytes();
        let capped_len: usize = if bytes.len() < MAX_PREFIX_LEN {
            bytes.len()
        } else {
            MAX_PREFIX_LEN
        };
        let mut idx: usize = 0;
        while idx < capped_len
            invariant
                capped_len == min_nat(bytes@.len(), 32),
                idx <= capped_len,
                bytes@ == prefix.spec_bytes(),
                digest@ == digest_bytes_spec(keyword.spec_bytes()),
                digest@.len() == 16,
                forall|i: int|
                    0 <= i < idx ==> #[trigger] hex_nibble_spec(bytes@[i]) == digest_nibbles(
                        keyword.spec_bytes(),
                    )[i],
            decreases capped_len - idx,
        {
            if hex_nibble(bytes[idx]) != digest_nibble_at(digest.as_slice(), idx) {
                return false;
            }
            idx = idx + 1;
        }
        true
    }

    /// Routes hexadecimal digits: the root entry named by the first
    /// `root_prefix_len` characters, then one level down per character until a
    /// leaf. `None` without entries or when the key (capped at 32 characters)
    /// is shorter than the root prefix.
    pub fn route_key_hex(&self, key_hex: &str) -> (r: Option<EPRingRoute>)
        requires
            self.wf(),
            self.digits_suffice(nibbles_of(key_hex.spec_bytes())),
        ensures
            r == self.route_digits(nibbles_of(key_hex.spec_bytes())),
            self.names().len() > 0 && min_nat(key_hex.spec_bytes().len(), 32) >= self.root_len()
                ==> self.routed_to_leaf(r, nibbles_of(key_hex.spec_bytes())),
    {
        let bytes = key_hex.as_bytes();
        self.route_bytes(bytes)
    }

    /// Whether routing these hexadecimal digits reads no digit past their
    /// end (where it would, the digits do not name an entry deep enough and
    /// routing cannot go on). Holds without entries and for digits shorter
    /// than the root prefix.
    pub fn route_key_hex_defined(&self, key_hex: &str) -> (b: bool)
        requires
            self.wf(),
        ensures
            b == self.digits_suffice(nibbles_of(key_hex.spec_bytes())),
    {
        let bytes = key_hex.as_bytes();
        if self.entries.len() == 0 {
            return true;
        }
        let ghost es = self.entry_list();
        let ghost n = self.node_names@.len();
        let ghost ks = nibbles_of(bytes@);
        let capped_len: usize = if bytes.len() < MAX_PREFIX_LEN {
            bytes.len()
        } else {
            MAX_PREFIX_LEN
        };
        if capped_len < self.root_prefix_len {
            return true;
        }
        let root = root_entry_index_from_prefix(bytes, self.root_prefix_len);
        proof {
            assert(nibbles_of(bytes@.take(self.root_prefix_len as int)) =~= ks.take(
                self.root_prefix_len as int,
            ));
            lemma_nibbles_of_all(bytes@);
            let r = self.root_prefix_len as nat;
            assert(all_nibbles(ks.take(r as int)));
            lemma_hex_fixed_of_value(ks.take(r as int));
            assert(root < es.len());
        }
        let mut entry_index = root;
        loop
            invariant
                self.wf(),
                es == self.entry_list(),
                n == self.node_names@.len(),
                ks == nibbles_of(bytes@),
                bytes@ == key_hex.spec_bytes(),
                all_nibbles(ks),
                0 <= entry_index < es.len(),
                descent_within(es, ks, entry_index as int) == self.digits_suffice(ks),
            decreases es.len() - entry_index,
        {
            assert(entry_ok(es, n, entry_index as int));
            assert(es[entry_index as int] == self.entries@[entry_index as int]@);
            match self.entries[entry_index].split_child_start {
                None => {
                    return true;
                },
                Some(child_start) => {
                    let pl = self.entries[entry_index].prefix_len as usize;
                    if pl >= bytes.len() {
                        return false;
                    }
                    let d = hex_nibble(bytes[pl]);
                    assert(child_start + 16 <= es.len() && es.len() == self.entries.len());
                    assert(ks[pl as int] == d);
                    entry_index = child_start + d as usize;
                },
            }
        }
    }

    fn route_bytes(&self, bytes: &[u8]) -> (r: Option<EPRingRoute>)
        requires
            self.wf(),
            self.digits_suffice(nibbles_of(bytes@)),
        ensures
            r == self.route_digits(nibbles_of(bytes@)),
            self.names().len() > 0 && min_nat(bytes@.len(), 32) >= self.root_len() ==> self.routed_to_leaf(r, nibbles_of(bytes@)),
    {
        if self.entries.len() == 0 {
            proof {
                if self.node_names@.len() > 0 {
                    lemma_pow16_monotone(0, self.root_prefix_len as nat);
                }
            }
            return None;
        }
        let ghost es = self.entry_list();
        let ghost n = self.node_names@.len();
        let ghost ks = nibbles_of(bytes@);
        let capped_len: usize = if bytes.len() < MAX_PREFIX_LEN {
            bytes.len()
        } else {
            MAX_PREFIX_LEN
        };
        if capped_len < self.root_prefix_len {
            return None;
        }
        let root = root_entry_index_from_prefix(bytes, self.root_prefix_len);
        proof {
            assert(nibbles_of(bytes@.take(self.root_prefix_len as int)) =~= ks.take(
                self.root_prefix_len as int,
            ));
            lemma_nibbles_of_all(bytes@);
            let r = self.root_prefix_len as nat;
            assert(all_nibbles(ks.take(r as int)));
            lemma_hex_fixed_of_value(ks.take(r as int));
            assert(root < es.len());
            assert(es[root as int].prefix == hex_fixed(root as nat, r));
            assert(ks.take(r as int).len() == r);
            lemma_descend_lands(es, n, ks, root as int);
        }
        let mut entry_index = root;
        loop
            invariant
                self.wf(),
                es == self.entry_list(),
                n == self.node_names@.len(),
                ks == nibbles_of(bytes@),
                0 <= entry_index < es.len(),
                descend(es, ks, entry_index as int) == self.route_digits(ks),
                descent_within(es, ks, entry_index as int),
                self.routed_to_leaf(self.route_digits(ks), ks),
            decreases es.len() - entry_index,
        {
            assert(entry_ok(es, n, entry_index as int));
            assert(es[entry_index as int] == self.entries@[entry_index as int]@);
            match self.entries[entry_index].split_child_start {
                None => {
                    return Some(
                        EPRingRoute {
                            entry_index,
                            node_index: self.entries[entry_index].owner_ref,
                        },
                    );
                },
                Some(child_start) => {
                    let pl = self.entries[entry_index].prefix_len as usize;
                    let d = hex_nibble(bytes[pl]);
                    assert(child_start + 16 <= es.len() && es.len() == self.entries.len());
                    entry_index = child_start + d as usize;
                },
            }
        }
    }

    /// Routes a keyword by its hexadecimal digest.
    pub fn route_keyword(&self, keyword: &str) -> (r: Option<EPRingRoute>)
        requires
            self.wf(),
        ensures
            r == self.route_digits(digest_nibbles(keyword.spec_bytes())),
            self.names().len() == 0 ==> r is None,
            self.names().len() > 0 ==> self.routed_to_leaf(r, digest_nibbles(keyword.spec_bytes())),
    {
        let key_hex = Self::keyword_to_hex(keyword);
        let ghost ks = digest_nibbles(keyword.spec_bytes());
        proof {
            lemma_hex_of_bytes_nibbles(digest_bytes_spec(keyword.spec_bytes()));
            lemma_hex_chars_bytes(ks);
            lemma_descent_within_long(
                self.entry_list(),
                self.node_names@.len() as nat,
                ks,
                nibbles_value(ks.take(self.root_prefix_len as int)) as int,
            );
        }
        let key_str = key_hex.as_str();
        assert(key_str.spec_bytes() == vstd::utf8::encode_utf8(key_hex@));
        self.route_key_hex(key_str)
    }
}

/// The entry that the digits `ks[depth..end]` lead to from entry `i`, one
/// level per digit; `None` when a leaf is met before the digits run out.
pub open spec fn find_walk(es: Seq<EntryView>, ks: Seq<u8>, i: int, depth: int, end: int) -> Option<int>
    decreases end - depth,
{
    if depth >= end {
        Some(i)
    } else if !(0 <= i < es.len()) {
        None
    } else {
        match es[i].split_child_start {
            None => None,
            Some(c) => find_walk(es, ks, c + ks[depth], depth + 1, end),
        }
    }
}

/// The entry that a prefix names among entries `es` with root prefixes of
/// length `r`: the first `r` characters pick the root entry, each further
/// character (up to 32) picks a child. `None` without entries, for a prefix
/// shorter than the root prefix, or when a leaf is met before the prefix ends.
pub open spec fn find_in(es: Seq<EntryView>, r: nat, bytes: Seq<u8>) -> Option<usize> {
    let ks = nibbles_of(bytes);
    if es.len() == 0 || min_nat(bytes.len(), 32) < r {
        None
    } else {
        match find_walk(es, ks, nibbles_value(ks.take(r as int)) as int, r as int, min_nat(bytes.len(), 32) as int) {
            Some(i) => Some(i as usize),
            None => None,
        }
    }
}

/// Entry `i` may split: there are nodes, and it is an unsplit entry whose
/// prefix is shorter than 32 digits.
pub open spec fn can_split(es: Seq<EntryView>, n: nat, i: int) -> bool {
    &&& n > 0
    &&& 0 <= i < es.len()
    &&& es[i].split_child_start is None
    &&& es[i].prefix_len < 32
}

/// The sixteen children of entry `i`: child `d` extends its prefix by digit
/// `d` and belongs to node `(owner + d) % n`.
pub open spec fn split_children(es: Seq<EntryView>, n: nat, i: int) -> Seq<EntryView> {
    Seq::new(
        16,
        |d: int|
            EntryView {
                prefix: es[i].prefix.push(hex_digit(d as nat)),
                prefix_len: (es[i].prefix_len + 1) as u8,
                counter: 0,
                owner_ref: ((es[i].owner_ref + d) % (n as int)) as usize,
                split_child_start: None,
                root_summary: Seq::empty(),
            },
    )
}

/// The entries after entry `i` splits: it points at its children, appended
/// at the end.
pub open spec fn split_result(es: Seq<EntryView>, n: nat, i: int) -> Seq<EntryView> {
    let c = es.len() as usize;
    es.update(
        i,
        EntryView {
            prefix: es[i].prefix,
            prefix_len: es[i].prefix_len,
            counter: es[i].counter,
            owner_ref: c,
            split_child_start: Some(c),
            root_summary: es[i].root_summary,
        },
    ) + split_children(es, n, i)
}

/// The event a split of entry `i` reports.
pub open spec fn split_event(es: Seq<EntryView>, n: nat, i: int) -> SplitEventView {
    SplitEventView {
        parent_entry_index: i as usize,
        original_owner_index: es[i].owner_ref,
        child_routes: Seq::new(
            16,
            |d: int|
                EPRingRoute {
                    entry_index: (es.len() + d) as usize,
                    node_index: ((es[i].owner_ref + d) % (n as int)) as usize,
                },
        ),
    }
}

/// Entry `i` with its counter and summary replaced.
pub open spec fn with_count(e: EntryView, counter: u64, summary: Seq<u8>) -> EntryView {
    EntryView {
        prefix: e.prefix,
        prefix_len: e.prefix_len,
        counter,
        owner_ref: e.owner_ref,
        split_child_start: e.split_child_start,
        root_summary: summary,
    }
}

proof fn lemma_rotate_mod(owner: int, digit: int, n: int)
    requires
        0 <= owner < n,
        0 <= digit,
    ensures
        ({
            let dm = digit % n;
            let gap = n - owner;
            (owner + digit) % n == if dm < gap {
                owner + dm
            } else {
                dm - gap
            }
        }),
{
    let dm = digit % n;
    assert((owner + digit) % n == (owner + dm) % n) by {
        vstd::arithmetic::div_mod::lemma_add_mod_noop(owner, digit, n);
        vstd::arithmetic::div_mod::lemma_mod_twice(owner, n);
        vstd::arithmetic::div_mod::lemma_small_mod(owner as nat, n as nat);
    }
    assert(0 <= dm < n) by {
        vstd::arithmetic::div_mod::lemma_mod_bound(digit, n);
    }
    if owner + dm < n {
        vstd::arithmetic::div_mod::lemma_small_mod((owner + dm) as nat, n as nat);
    } else {
        vstd::arithmetic::div_mod::lemma_mod_add_multiples_vanish(owner + dm - n, n);
        vstd::arithmetic::div_mod::lemma_small_mod((owner + dm - n) as nat, n as nat);
    }
}


/// Splitting keeps every entry consistent.
proof fn lemma_split_keeps_entries_ok(es: Seq<EntryView>, n: nat, ei: int)
    requires
        forall|j: int| 0 <= j < es.len() ==> #[trigger] entry_ok(es, n, j),
        can_split(es, n, ei),
        es.len() + 16 <= usize::MAX,
    ensures
        forall|j: int|
            0 <= j < split_result(es, n, ei).len() ==> #[trigger] entry_ok(
                split_result(es, n, ei),
                n,
                j,
            ),
{
    let new_es = split_result(es, n, ei);
    let kids = split_children(es, n, ei);
    let cs = es.len() as int;
    assert(entry_ok(es, n, ei));
    assert forall|j: int| 0 <= j < new_es.len() implies #[trigger] entry_ok(new_es, n, j) by {
        if j < cs {
            assert(entry_ok(es, n, j));
            assert(new_es[j].prefix == es[j].prefix);
            assert(new_es[j].prefix_len == es[j].prefix_len);
            if j != ei {
                assert(new_es[j] == es[j]);
                match es[j].split_child_start {
                    None => {},
                    Some(c) => {
                        assert forall|k: int| c <= k < c + 16 implies #[trigger] new_es[k].prefix_len
                            == new_es[j].prefix_len + 1 && new_es[k].prefix == new_es[j].prefix.push(
                            hex_digit((k - c) as nat),
                        ) by {
                            assert(es[k].prefix_len == es[j].prefix_len + 1);
                            assert(new_es[k].prefix == es[k].prefix);
                            assert(new_es[k].prefix_len == es[k].prefix_len);
                        }
                    },
                }
            } else {
                assert(new_es[j].split_child_start == Some(cs as usize));
                assert(new_es[j].owner_ref == cs as usize);
                assert forall|k: int| cs <= k < cs + 16 implies #[trigger] new_es[k].prefix_len
                    == new_es[j].prefix_len + 1 && new_es[k].prefix == new_es[j].prefix.push(
                    hex_digit((k - cs) as nat),
                ) by {
                    assert(new_es[k] == kids[k - cs]);
                }
            }
        } else {
            assert(new_es[j] == kids[j - cs]);
            assert(new_es[j].prefix_len == es[ei].prefix_len + 1);
            assert(new_es[j].prefix.len() == es[ei].prefix.len() + 1);
            assert((es[ei].owner_ref + (j - cs)) % (n as int) < n) by {
                vstd::arithmetic::div_mod::lemma_mod_bound(es[ei].owner_ref + (j - cs), n as int);
            }
        }
    }
}

impl EPRing {
    /// The entry that a prefix names: its first `root_prefix_len` characters
    /// pick the root entry, each further character (up to 32) picks a child.
    /// `None` without entries, for a prefix shorter than the root prefix, or
    /// when a leaf is met before the prefix ends.
    pub open spec fn find_spec(&self, bytes: Seq<u8>) -> Option<usize> {
        find_in(self.entry_list(), self.root_len(), bytes)
    }

    /// The index of the entry that `prefix` names, if any.
    pub fn find_entry_index(&self, prefix: &str) -> (r: Option<usize>)
        requires
            self.wf(),
        ensures
            r == self.find_spec(prefix.spec_bytes()),
            r matches Some(i) ==> i < self.entry_list().len(),
    {
        if self.entries.len() == 0 {
            return None;
        }
        let ghost es = self.entry_list();
        let ghost n = self.node_names@.len();
        let bytes = prefix.as_bytes();
        let ghost ks = nibbles_of(bytes@);
        let capped_len: usize = if bytes.len() < MAX_PREFIX_LEN {
            bytes.len()
        } else {
            MAX_PREFIX_LEN
        };
        if capped_len < self.root_prefix_len {
            return None;
        }
        let root = root_entry_index_from_prefix(bytes, self.root_prefix_len);
        proof {
            assert(nibbles_of(bytes@.take(self.root_prefix_len as int)) =~= ks.take(
                self.root_prefix_len as int,
            ));
            lemma_nibbles_of_all(bytes@);
            lemma_pow16_monotone(0, self.root_prefix_len as nat);
        }
        let mut entry_index = root;
        let mut depth = self.root_prefix_len;
        while depth < capped_len
            invariant
                self.wf(),
                es == self.entry_list(),
                es.len() == self.entries@.len(),
                n == self.node_names@.len(),
                ks == nibbles_of(bytes@),
                all_nibbles(ks),
                bytes@ == prefix.spec_bytes(),
                capped_len == min_nat(bytes@.len(), 32),
                self.root_prefix_len <= depth <= capped_len,
                0 <= entry_index < es.len(),
                find_walk(es, ks, entry_index as int, depth as int, capped_len as int) == find_walk(
                    es,
                    ks,
                    root as int,
                    self.root_prefix_len as int,
                    capped_len as int,
                ),
                root == nibbles_value(ks.take(self.root_prefix_len as int)),
            decreases capped_len - depth,
        {
            assert(entry_ok(es, n, entry_index as int));
            assert(es[entry_index as int] == self.entries@[entry_index as int]@);
            match self.entries[entry_index].split_child_start {
                None => {
                    return None;
                },
                Some(child_start) => {
                    let d = hex_nibble(bytes[depth]);
                    assert(child_start + 16 <= es.len() && es.len() == self.entries.len());
                    entry_index = child_start + d as usize;
                    depth = depth + 1;
                },
            }
        }
        Some(entry_index)
    }

    /// Whether entry `entry_index` exists and has been split.
    pub fn entry_is_split(&self, entry_index: usize) -> (r: bool)
        ensures
            r == (entry_index < self.entry_list().len()
                && self.entry_list()[entry_index as int].split_child_start is Some),
    {
        if entry_index < self.entries.len() {
            assert(self.entry_list()[entry_index as int] == self.entries@[entry_index as int]@);
            self.entries[entry_index].split_child_start.is_some()
        } else {
            false
        }
    }

    /// Splits entry `entry_index` into sixteen children appended at the end of
    /// the entry list; child `d` gets the parent's prefix followed by digit
    /// `d` and node `(owner + d) % n`. Nothing happens (and `None` comes back)
    /// without nodes, for a missing or already split entry, or at the maximum
    /// prefix length.
    fn split_entry(&mut self, entry_index: usize) -> (r: Option<EPRingSplitEvent>)
        requires
            old(self).wf(),
            old(self).has_room(),
        ensures
            final(self).wf(),
            final(self).names() == old(self).names(),
            final(self).root_len() == old(self).root_len(),
            final(self).threshold() == old(self).threshold(),
            can_split(old(self).entry_list(), old(self).names().len(), entry_index as int) ==> {
                &&& final(self).entry_list() == split_result(
                    old(self).entry_list(),
                    old(self).names().len(),
                    entry_index as int,
                )
                &&& event_view(r) == Some(
                    split_event(old(self).entry_list(), old(self).names().len(), entry_index as int),
                )
            },
            !can_split(old(self).entry_list(), old(self).names().len(), entry_index as int) ==> {
                &&& final(self).entry_list() == old(self).entry_list()
                &&& r is None
            },
    {
        if self.node_names.len() == 0 || self.entry_is_split(entry_index) {
            return None;
        }
        if entry_index >= self.entries.len() {
            return None;
        }
        let ghost es = self.entry_list();
        let ghost n = self.node_names@.len();
        assert(es[entry_index as int] == self.entries@[entry_index as int]@);
        let parent_chars = chars_of(self.entries[entry_index].prefix.as_str());
        let parent_prefix_len = self.entries[entry_index].prefix_len as usize;
        if parent_prefix_len >= MAX_PREFIX_LEN {
            return None;
        }
        let original_owner = self.entries[entry_index].owner_ref;
        let node_count = self.node_names.len();
        let child_start = self.entries.len();
        let mut child_routes: Vec<EPRingRoute> = Vec::new();
        assert(entry_ok(es, n, entry_index as int));
        let mut digit: usize = 0;
        while digit < 16
            invariant
                0 <= digit <= 16,
                es.len() == child_start,
                child_start + 16 <= usize::MAX,
                n == node_count,
                n == self.node_names@.len(),
                n > 0,
                original_owner < n,
                parent_chars@ == es[entry_index as int].prefix,
                parent_prefix_len == es[entry_index as int].prefix_len,
                parent_prefix_len < 32,
                entry_index < child_start,
                original_owner == es[entry_index as int].owner_ref,
                self.entry_list() == es + split_children(es, n, entry_index as int).take(digit as int),
                child_routes@ == split_event(es, n, entry_index as int).child_routes.take(digit as int),
                self.node_names == old(self).node_names,
                self.root_prefix_len == old(self).root_prefix_len,
                self.split_threshold == old(self).split_threshold,
            decreases 16 - digit,
        {
            let child_index = child_start + digit;
            let dm = digit % node_count;
            let gap = node_count - original_owner;
            let node_index = if dm < gap {
                original_owner + dm
            } else {
                dm - gap
            };
            proof {
                lemma_rotate_mod(original_owner as int, digit as int, n as int);
            }
            let mut cs = parent_chars.clone();
            cs.push(hex_digit_char(digit as u8));
            let child_prefix = string_from_chars(cs.as_slice());
            let child = EPRingEntry {
                prefix: child_prefix,
                prefix_len: (parent_prefix_len + 1) as u8,
                counter: 0,
                owner_ref: node_index,
                split_child_start: None,
                root_summary: Vec::new(),
            };
            let ghost before = self.entries@;
            self.entries.push(child);
            child_routes.push(EPRingRoute { entry_index: child_index, node_index });
            proof {
                let kids = split_children(es, n, entry_index as int);
                assert(child@ == kids[digit as int]) by {
                    assert(child.root_summary@ =~= Seq::<u8>::empty());
                    assert(cs@ =~= parent_chars@.push(hex_digit(digit as nat)));
                }
                assert(entries_view(self.entries@) =~= entries_view(before).push(child@));
                assert(kids.take(digit + 1) =~= kids.take(digit as int).push(kids[digit as int]));
                let evs = split_event(es, n, entry_index as int).child_routes;
                assert(evs.take(digit + 1) =~= evs.take(digit as int).push(evs[digit as int]));
            }
            digit = digit + 1;
        }
        let ghost grown = self.entry_list();
        let ghost old_entries = self.entries@;
        assert(grown == entries_view(old_entries));
        self.entries[entry_index].owner_ref = child_start;
        self.entries[entry_index].split_child_start = Some(child_start);
        let event = EPRingSplitEvent {
            parent_entry_index: entry_index,
            original_owner_index: original_owner,
            child_routes,
        };
        proof {
            let kids = split_children(es, n, entry_index as int);
            assert(kids.take(16) =~= kids);
            let evs = split_event(es, n, entry_index as int).child_routes;
            assert(evs.take(16) =~= evs);
            let res = split_result(es, n, entry_index as int);
            assert(self.entry_list() =~= res) by {
                assert forall|j: int| 0 <= j < res.len() implies #[trigger] self.entry_list()[j]
                    == res[j] by {
                    if j != entry_index {
                        assert(self.entries@[j] == old_entries[j]);
                        assert(self.entry_list()[j] == grown[j]);
                        if j < es.len() {
                            assert(grown[j] == es[j]);
                        } else {
                            assert(grown[j] == kids[j - es.len()]);
                        }
                    } else {
                        assert(grown[j] == es[j]);
                        assert(self.entries@[j].prefix == old_entries[j].prefix);
                        assert(self.entries@[j].root_summary == old_entries[j].root_summary);
                    }
                }
            }
            let new_es = self.entry_list();
            lemma_split_keeps_entries_ok(es, n, entry_index as int);
            lemma_split_keeps_lineage(es, n, entry_index as int, self.root_prefix_len as nat);
            if n > 0 {
                assert forall|i: int| 0 <= i < pow16(self.root_prefix_len as nat) implies (#[trigger] new_es[i]).prefix_len
                    == self.root_prefix_len && new_es[i].prefix == hex_fixed(
                    i as nat,
                    self.root_prefix_len as nat,
                ) by {
                    assert(es[i].prefix_len == self.root_prefix_len);
                }
            }
            assert(event@.child_routes == evs);
        }
        Some(event)
    }
}

/// `c + 1`, or `c` at the maximum.
pub open spec fn bump(c: u64) -> u64 {
    if c == u64::MAX {
        c
    } else {
        (c + 1) as u64
    }
}

/// `c - 1`, or `0` at zero.
pub open spec fn drop_one(c: u64) -> u64 {
    if c == 0 {
        0
    } else {
        (c - 1) as u64
    }
}

/// The entries after entry `i` may split: split when it can, unchanged
/// otherwise.
pub open spec fn split_if_possible(es: Seq<EntryView>, n: nat, i: int) -> Seq<EntryView> {
    if can_split(es, n, i) {
        split_result(es, n, i)
    } else {
        es
    }
}

pub open spec fn split_event_if_possible(es: Seq<EntryView>, n: nat, i: int) -> Option<SplitEventView> {
    if can_split(es, n, i) {
        Some(split_event(es, n, i))
    } else {
        None
    }
}

/// What recording an insertion does to entries `es`, given the entry `found`
/// that the prefix names: nothing without one; otherwise its counter goes up
/// by one (saturating) and its summary is replaced, and it splits when the
/// counter then exceeds `thr`.
pub open spec fn insert_outcome(
    es: Seq<EntryView>,
    n: nat,
    thr: u64,
    found: Option<usize>,
    summary: Seq<u8>,
) -> (Seq<EntryView>, Option<SplitEventView>) {
    match found {
        None => (es, None),
        Some(i) => {
            let counted = es.update(
                i as int,
                with_count(es[i as int], bump(es[i as int].counter), summary),
            );
            if bump(es[i as int].counter) > thr {
                (split_if_possible(counted, n, i as int), split_event_if_possible(counted, n, i as int))
            } else {
                (counted, None)
            }
        },
    }
}

/// What a pre-split request does to entries `es`, given the entry `found`
/// that the prefix names: it splits an existing unsplit entry with a zero
/// counter when more than `thr` keywords are about to arrive.
pub open spec fn presplit_outcome(
    es: Seq<EntryView>,
    n: nat,
    thr: u64,
    found: Option<usize>,
    incoming: u64,
) -> (Seq<EntryView>, Option<SplitEventView>) {
    match found {
        None => (es, None),
        Some(i) => if es[i as int].counter != 0 || incoming <= thr || es[i as int].split_child_start is Some {
            (es, None)
        } else {
            (split_if_possible(es, n, i as int), split_event_if_possible(es, n, i as int))
        },
    }
}

/// `new_es` keeps every entry of `old_es` at its index with its prefix, and
/// a split entry stays split with the same children: entries are only ever
/// added, and a split is never undone.
pub open spec fn entries_grow(old_es: Seq<EntryView>, new_es: Seq<EntryView>) -> bool {
    &&& old_es.len() <= new_es.len()
    &&& forall|i: int|
        0 <= i < old_es.len() ==> {
            &&& (#[trigger] new_es[i]).prefix == old_es[i].prefix
            &&& new_es[i].prefix_len == old_es[i].prefix_len
            &&& (old_es[i].split_child_start is Some ==> new_es[i].split_child_start
                == old_es[i].split_child_start)
        }
}

/// Growth of the entries carries over any number of calls.
pub proof fn entries_grow_transitive(a: Seq<EntryView>, b: Seq<EntryView>, c: Seq<EntryView>)
    requires
        entries_grow(a, b),
        entries_grow(b, c),
    ensures
        entries_grow(a, c),
{
    assert forall|i: int| 0 <= i < a.len() implies (#[trigger] c[i]).prefix == a[i].prefix
        && c[i].prefix_len == a[i].prefix_len && (a[i].split_child_start is Some
        ==> c[i].split_child_start == a[i].split_child_start) by {
        assert(b[i].prefix == a[i].prefix);
    }
}

proof fn lemma_grow_refl(es: Seq<EntryView>)
    ensures
        entries_grow(es, es),
{
}

proof fn lemma_grow_count(es: Seq<EntryView>, i: int, c: u64, summary: Seq<u8>)
    requires
        0 <= i < es.len(),
    ensures
        entries_grow(es, es.update(i, with_count(es[i], c, summary))),
{
}

proof fn lemma_grow_split(es: Seq<EntryView>, n: nat, i: int)
    requires
        0 <= i < es.len(),
    ensures
        entries_grow(es, split_if_possible(es, n, i)),
{
    if can_split(es, n, i) {
        let r = split_result(es, n, i);
        assert forall|j: int| 0 <= j < es.len() implies (#[trigger] r[j]).prefix == es[j].prefix
            && r[j].prefix_len == es[j].prefix_len && (es[j].split_child_start is Some
            ==> r[j].split_child_start == es[j].split_child_start) by {
            if j != i {
                assert(r[j] == es[j]);
            }
        }
    }
}

/// Recording an insertion only adds entries and never undoes a split.
pub proof fn insert_outcome_grows(
    es: Seq<EntryView>,
    n: nat,
    thr: u64,
    found: Option<usize>,
    summary: Seq<u8>,
)
    requires
        found matches Some(i) ==> i < es.len(),
    ensures
        entries_grow(es, insert_outcome(es, n, thr, found, summary).0),
{
    match found {
        None => lemma_grow_refl(es),
        Some(i) => {
            let counted = es.update(i as int, with_count(es[i as int], bump(es[i as int].counter), summary));
            lemma_grow_count(es, i as int, bump(es[i as int].counter), summary);
            if bump(es[i as int].counter) > thr {
                lemma_grow_split(counted, n, i as int);
                entries_grow_transitive(es, counted, split_if_possible(counted, n, i as int));
            }
        },
    }
}

/// A pre-split request only adds entries and never undoes a split.
pub proof fn presplit_outcome_grows(
    es: Seq<EntryView>,
    n: nat,
    thr: u64,
    found: Option<usize>,
    incoming: u64,
)
    requires
        found matches Some(i) ==> i < es.len(),
    ensures
        entries_grow(es, presplit_outcome(es, n, thr, found, incoming).0),
{
    match found {
        None => lemma_grow_refl(es),
        Some(i) => {
            lemma_grow_refl(es);
            lemma_grow_split(es, n, i as int);
        },
    }
}

/// The header line of the ring's description.
pub open spec fn header_line(root_len: nat, threshold: nat, count: nat) -> Seq<char> {
    "root_prefix_len="@ + decimal(root_len) + ", split_threshold="@ + decimal(threshold)
        + ", entries="@ + decimal(count)
}

/// How an entry's owner is described: the child list of a split entry, or
/// the node's name (`unknown` when there is no such node) and index.
pub open spec fn owner_text(e: EntryView, names: Seq<Seq<char>>) -> Seq<char> {
    match e.split_child_start {
        Some(_) => "split->"@ + decimal(e.owner_ref as nat),
        None => (if e.owner_ref < names.len() {
            names[e.owner_ref as int]
        } else {
            "unknown"@
        }) + "("@ + decimal(e.owner_ref as nat) + ")"@,
    }
}

/// The description line of entry `idx`.
pub open spec fn entry_line(idx: nat, e: EntryView, names: Seq<Seq<char>>) -> Seq<char> {
    "["@ + decimal(idx) + "] prefix='"@ + e.prefix + "' counter="@ + decimal(e.counter as nat)
        + " owner="@ + owner_text(e, names) + " root_summary_len="@ + decimal(
        e.root_summary.len(),
    )
}



/// Splitting keeps the lineage of every entry.
proof fn lemma_split_keeps_lineage(es: Seq<EntryView>, n: nat, ei: int, r: nat)
    requires
        forall|j: int| 0 <= j < es.len() ==> #[trigger] entry_ok(es, n, j),
        lineage_ok(es, r),
        can_split(es, n, ei),
        es.len() + 16 <= usize::MAX,
    ensures
        lineage_ok(split_result(es, n, ei), r),
{
    let new_es = split_result(es, n, ei);
    let kids = split_children(es, n, ei);
    let cs = es.len() as int;
    assert(entry_ok(es, n, ei));
    assert(es[ei].prefix_len >= r && is_hex_text(es[ei].prefix));
    assert forall|j: int| 0 <= j < new_es.len() implies (#[trigger] new_es[j]).prefix_len >= r && is_hex_text(new_es[j].prefix) by {
        if j < cs {
            assert(new_es[j].prefix == es[j].prefix && new_es[j].prefix_len == es[j].prefix_len);
            assert(es[j].prefix_len >= r && is_hex_text(es[j].prefix));
        } else {
            assert(new_es[j] == kids[j - cs]);
            lemma_hex_text_push(es[ei].prefix, (j - cs) as nat);
        }
    }
    assert forall|j: int| pow16(r) <= j < new_es.len() implies #[trigger] has_parent(new_es, j) by {
        if j < cs {
            assert(has_parent(es, j));
            let p = choose|p: int| parent_of(es, p, j);
            assert(p != ei);
            assert(new_es[p] == es[p]);
            assert(parent_of(new_es, p, j));
        } else {
            assert(new_es[ei].split_child_start == Some(cs as usize));
            assert(parent_of(new_es, ei, j));
        }
    }
}

/// Changing an entry's counter and summary keeps every entry's lineage.
proof fn lemma_count_keeps_lineage(es: Seq<EntryView>, i: int, counter: u64, summary: Seq<u8>, r: nat)
    requires
        lineage_ok(es, r),
        0 <= i < es.len(),
    ensures
        lineage_ok(es.update(i, with_count(es[i], counter, summary)), r),
{
    let new_es = es.update(i, with_count(es[i], counter, summary));
    assert forall|j: int| 0 <= j < new_es.len() implies (#[trigger] new_es[j]).prefix_len >= r && is_hex_text(new_es[j].prefix) by {
        assert(new_es[j].prefix == es[j].prefix && new_es[j].prefix_len == es[j].prefix_len);
        assert(es[j].prefix_len >= r && is_hex_text(es[j].prefix));
    }
    assert forall|j: int| pow16(r) <= j < new_es.len() implies #[trigger] has_parent(new_es, j) by {
        assert(has_parent(es, j));
        let p = choose|p: int| parent_of(es, p, j);
        assert(new_es[p].split_child_start == es[p].split_child_start);
        assert(parent_of(new_es, p, j));
    }
}

/// Changing an entry's counter and summary keeps every entry consistent.
proof fn lemma_count_keeps_entries_ok(es: Seq<EntryView>, n: nat, i: int, counter: u64, summary: Seq<u8>)
    requires
        forall|j: int| 0 <= j < es.len() ==> #[trigger] entry_ok(es, n, j),
        0 <= i < es.len(),
    ensures
        ({
            let new_es = es.update(i, with_count(es[i], counter, summary));
            forall|j: int| 0 <= j < new_es.len() ==> #[trigger] entry_ok(new_es, n, j)
        }),
{
    let new_es = es.update(i, with_count(es[i], counter, summary));
    assert forall|j: int| 0 <= j < new_es.len() implies #[trigger] entry_ok(new_es, n, j) by {
        assert(entry_ok(es, n, j));
        assert(new_es[j].prefix == es[j].prefix);
        assert(new_es[j].prefix_len == es[j].prefix_len);
        assert(new_es[j].owner_ref == es[j].owner_ref);
        assert(new_es[j].split_child_start == es[j].split_child_start);
        match es[j].split_child_start {
            None => {},
            Some(c) => {
                assert forall|k: int| c <= k < c + 16 implies #[trigger] new_es[k].prefix_len
                    == new_es[j].prefix_len + 1 && new_es[k].prefix == new_es[j].prefix.push(
                    hex_digit((k - c) as nat),
                ) by {
                    assert(es[k].prefix_len == es[j].prefix_len + 1);
                    assert(new_es[k].prefix == es[k].prefix);
                    assert(new_es[k].prefix_len == es[k].prefix_len);
                }
            },
        }
    }
}

impl EPRing {
    /// Replaces the counter and summary of entry `i`.
    fn set_count(&mut self, i: usize, counter: u64, root_summary: Vec<u8>)
        requires
            old(self).wf(),
            i < old(self).entry_list().len(),
        ensures
            final(self).wf(),
            final(self).names() == old(self).names(),
            final(self).root_len() == old(self).root_len(),
            final(self).threshold() == old(self).threshold(),
            final(self).entry_list() == old(self).entry_list().update(
                i as int,
                with_count(old(self).entry_list()[i as int], counter, root_summary@),
            ),
    {
        let ghost es = self.entry_list();
        let ghost n = self.node_names@.len();
        let ghost before = self.entries@;
        self.entries[i].counter = counter;
        self.entries[i].root_summary = root_summary;
        proof {
            let new_es = self.entry_list();
            let target = es.update(i as int, with_count(es[i as int], counter, root_summary@));
            assert(new_es =~= target) by {
                assert forall|j: int| 0 <= j < target.len() implies #[trigger] new_es[j] == target[j] by {
                    if j != i {
                        assert(self.entries@[j] == before[j]);
                    }
                }
            }
            lemma_count_keeps_entries_ok(es, n, i as int, counter, root_summary@);
            lemma_count_keeps_lineage(es, i as int, counter, root_summary@, self.root_prefix_len as nat);
            if n > 0 {
                assert forall|k: int| 0 <= k < pow16(self.root_prefix_len as nat) implies (#[trigger] new_es[k]).prefix_len
                    == self.root_prefix_len && new_es[k].prefix == hex_fixed(
                    k as nat,
                    self.root_prefix_len as nat,
                ) by {
                    assert(es[k].prefix_len == self.root_prefix_len);
                }
            }
        }
    }

    /// Replaces the summary of the entry that `prefix` names, if any.
    pub fn update_root_summary(&mut self, prefix: &str, root_summary: Vec<u8>)
        requires
            old(self).wf(),
        ensures
            final(self).wf(),
            final(self).names() == old(self).names(),
            final(self).root_len() == old(self).root_len(),
            final(self).threshold() == old(self).threshold(),
            match old(self).find_spec(prefix.spec_bytes()) {
                None => final(self).entry_list() == old(self).entry_list(),
                Some(i) => final(self).entry_list() == old(self).entry_list().update(
                    i as int,
                    with_count(
                        old(self).entry_list()[i as int],
                        old(self).entry_list()[i as int].counter,
                        root_summary@,
                    ),
                ),
            },
            entries_grow(old(self).entry_list(), final(self).entry_list()),
    {
        let found = self.find_entry_index(prefix);
        proof {
            let es = self.entry_list();
            match found {
                Some(i) => lemma_grow_count(es, i as int, es[i as int].counter, root_summary@),
                None => lemma_grow_refl(es),
            }
        }
        if let Some(entry_index) = found {
            let counter = self.entries[entry_index].counter;
            assert(self.entry_list()[entry_index as int] == self.entries@[entry_index as int]@);
            self.set_count(entry_index, counter, root_summary);
        }
    }

    /// Counts one more keyword under the entry that `prefix` names (saturating)
    /// and stores its summary; when the count then exceeds the split
    /// threshold, the entry splits.
    pub fn record_insert(&mut self, prefix: &str, root_summary: Vec<u8>) -> (r: Option<
        EPRingSplitEvent,
    >)
        requires
            old(self).wf(),
            old(self).has_room(),
        ensures
            final(self).wf(),
            final(self).names() == old(self).names(),
            final(self).root_len() == old(self).root_len(),
            final(self).threshold() == old(self).threshold(),
            (final(self).entry_list(), event_view(r)) == insert_outcome(
                old(self).entry_list(),
                old(self).names().len(),
                old(self).threshold(),
                old(self).find_spec(prefix.spec_bytes()),
                root_summary@,
            ),
            entries_grow(old(self).entry_list(), final(self).entry_list()),
    {
        let found = self.find_entry_index(prefix);
        proof {
            insert_outcome_grows(
                self.entry_list(),
                self.names().len(),
                self.threshold(),
                found,
                root_summary@,
            );
        }
        if let Some(entry_index) = found {
            assert(self.entry_list()[entry_index as int] == self.entries@[entry_index as int]@);
            let counter = self.entries[entry_index].counter.saturating_add(1);
            self.set_count(entry_index, counter, root_summary);
            if counter > self.split_threshold {
                return self.split_entry(entry_index);
            }
        }
        None
    }

    /// Counts one keyword less under the entry that `prefix` names
    /// (saturating at zero) and stores its summary.
    pub fn record_delete(&mut self, prefix: &str, root_summary: Vec<u8>)
        requires
            old(self).wf(),
        ensures
            final(self).wf(),
            final(self).names() == old(self).names(),
            final(self).root_len() == old(self).root_len(),
            final(self).threshold() == old(self).threshold(),
            match old(self).find_spec(prefix.spec_bytes()) {
                None => final(self).entry_list() == old(self).entry_list(),
                Some(i) => final(self).entry_list() == old(self).entry_list().update(
                    i as int,
                    with_count(
                        old(self).entry_list()[i as int],
                        drop_one(old(self).entry_list()[i as int].counter),
                        root_summary@,
                    ),
                ),
            },
            entries_grow(old(self).entry_list(), final(self).entry_list()),
    {
        let found = self.find_entry_index(prefix);
        proof {
            let es = self.entry_list();
            match found {
                Some(i) => lemma_grow_count(es, i as int, drop_one(es[i as int].counter), root_summary@),
                None => lemma_grow_refl(es),
            }
        }
        if let Some(entry_index) = found {
            assert(self.entry_list()[entry_index as int] == self.entries@[entry_index as int]@);
            let counter = self.entries[entry_index].counter.saturating_sub(1);
            self.set_count(entry_index, counter, root_summary);
        }
    }

    /// Splits the entry that `prefix` names ahead of time when it holds no
    /// keyword yet, is not split, and more than the threshold are about to
    /// arrive.
    pub fn maybe_presplit_empty_prefix(&mut self, prefix: &str, incoming_count: u64) -> (r: Option<
        EPRingSplitEvent,
    >)
        requires
            old(self).wf(),
            old(self).has_room(),
        ensures
            final(self).wf(),
            final(self).names() == old(self).names(),
            final(self).root_len() == old(self).root_len(),
            final(self).threshold() == old(self).threshold(),
            (final(self).entry_list(), event_view(r)) == presplit_outcome(
                old(self).entry_list(),
                old(self).names().len(),
                old(self).threshold(),
                old(self).find_spec(prefix.spec_bytes()),
                incoming_count,
            ),
            entries_grow(old(self).entry_list(), final(self).entry_list()),
    {
        let found = self.find_entry_index(prefix);
        proof {
            presplit_outcome_grows(
                self.entry_list(),
                self.names().len(),
                self.threshold(),
                found,
                incoming_count,
            );
        }
        let entry_index = match found {
            Some(i) => i,
            None => {
                return None;
            },
        };
        assert(self.entry_list()[entry_index as int] == self.entries@[entry_index as int]@);
        if self.entries[entry_index].counter != 0 || incoming_count <= self.split_threshold
            || self.entry_is_split(entry_index) {
            return None;
        }
        self.split_entry(entry_index)
    }

    /// The prefix of entry `entry_index`, if it exists.
    pub fn entry_prefix(&self, entry_index: usize) -> (r: Option<&str>)
        ensures
            r is Some <==> entry_index < self.entry_list().len(),
            r matches Some(p) ==> p@ == self.entry_list()[entry_index as int].prefix,
    {
        if entry_index < self.entries.len() {
            assert(self.entry_list()[entry_index as int] == self.entries@[entry_index as int]@);
            Some(self.entries[entry_index].prefix.as_str())
        } else {
            None
        }
    }

    /// The name of node `node_index`, if it exists.
    pub fn node_name(&self, node_index: usize) -> (r: Option<&str>)
        ensures
            r is Some <==> node_index < self.names().len(),
            r matches Some(p) ==> p@ == self.names()[node_index as int],
    {
        if node_index < self.node_names.len() {
            Some(self.node_names[node_index].as_str())
        } else {
            None
        }
    }

    /// The entries, in order.
    pub fn entries(&self) -> (r: &[EPRingEntry])
        ensures
            entries_view(r@) == self.entry_list(),
    {
        self.entries.as_slice()
    }

    /// The length of the root prefixes.
    pub fn root_prefix_len(&self) -> (r: usize)
        ensures
            r == self.root_len(),
    {
        self.root_prefix_len
    }

    /// A description of the ring: a header line, then one line per entry.
    pub fn structure_lines(&self) -> (lines: Vec<String>)
        ensures
            lines@.len() == self.entry_list().len() + 1,
            lines@[0]@ == header_line(
                self.root_len(),
                self.threshold() as nat,
                self.entry_list().len(),
            ),
            forall|i: int|
                0 <= i < self.entry_list().len() ==> #[trigger] lines@[i + 1]@ == entry_line(
                    i as nat,
                    self.entry_list()[i],
                    self.names(),
                ),
    {
        let mut lines: Vec<String> = Vec::new();
        let mut head: Vec<char> = Vec::new();
        push_str(&mut head, "root_prefix_len=");
        push_decimal(&mut head, self.root_prefix_len);
        push_str(&mut head, ", split_threshold=");
        push_decimal_u64(&mut head, self.split_threshold);
        push_str(&mut head, ", entries=");
        push_decimal(&mut head, self.entries.len());
        assert(head@ =~= header_line(
            self.root_len(),
            self.threshold() as nat,
            self.entry_list().len(),
        ));
        lines.push(string_from_chars(head.as_slice()));
        let mut idx: usize = 0;
        while idx < self.entries.len()
            invariant
                idx <= self.entries@.len(),
                lines@.len() == idx + 1,
                lines@[0]@ == header_line(
                    self.root_len(),
                    self.threshold() as nat,
                    self.entry_list().len(),
                ),
                forall|i: int|
                    0 <= i < idx ==> #[trigger] lines@[i + 1]@ == entry_line(
                        i as nat,
                        self.entry_list()[i],
                        self.names(),
                    ),
            decreases self.entries@.len() - idx,
        {
            let ghost e = self.entry_list()[idx as int];
            assert(e == self.entries@[idx as int]@);
            let entry = &self.entries[idx];
            let mut line: Vec<char> = Vec::new();
            push_str(&mut line, "[");
            push_decimal(&mut line, idx);
            push_str(&mut line, "] prefix='");
            push_str(&mut line, entry.prefix.as_str());
            push_str(&mut line, "' counter=");
            push_decimal_u64(&mut line, entry.counter);
            push_str(&mut line, " owner=");
            let ghost before_owner = line@;
            if self.entry_is_split(idx) {
                push_str(&mut line, "split->");
                push_decimal(&mut line, entry.owner_ref);
            } else {
                match self.node_name(entry.owner_ref) {
                    Some(name) => push_str(&mut line, name),
                    None => push_str(&mut line, "unknown"),
                }
                push_str(&mut line, "(");
                push_decimal(&mut line, entry.owner_ref);
                push_str(&mut line, ")");
            }
            assert(line@ =~= before_owner + owner_text(e, self.names()));
            push_str(&mut line, " root_summary_len=");
            push_decimal(&mut line, entry.root_summary.len());
            assert(line@ =~= entry_line(idx as nat, e, self.names()));
            lines.push(string_from_chars(line.as_slice()));
            idx = idx + 1;
        }
        lines
    }
}

/// Two well-formed rings with as many nodes and the same entries route
/// every digit string alike.
pub proof fn same_entries_route_alike(a: &EPRing, b: &EPRing, ks: Seq<u8>)
    requires
        a.wf(),
        b.wf(),
        a.names().len() == b.names().len(),
        a.entry_list() == b.entry_list(),
    ensures
        a.route_digits(ks) == b.route_digits(ks),
        a.digits_suffice(ks) == b.digits_suffice(ks),
{
    assert(a.entries@.len() == a.entry_list().len());
    assert(b.entries@.len() == b.entry_list().len());
}

/// A keyword is routed by its hexadecimal digest: reading the digest's
/// characters back as digits gives the digest's digits, and those are always
/// enough to route.
pub proof fn keyword_routes_by_its_hex(ring: &EPRing, keyword: Seq<u8>)
    requires
        ring.wf(),
    ensures
        nibbles_of(vstd::utf8::encode_utf8(keyword_hex_spec(keyword))) == digest_nibbles(keyword),
        ring.digits_suffice(digest_nibbles(keyword)),
{
    let ks = digest_nibbles(keyword);
    lemma_hex_of_bytes_nibbles(digest_bytes_spec(keyword));
    lemma_le_bytes_len(xxh3_128_spec(keyword) as nat, 16);
    lemma_hex_chars_bytes(ks);
    lemma_descent_within_long(
        ring.entry_list(),
        ring.names().len(),
        ks,
        nibbles_value(ks.take(ring.root_len() as int)) as int,
    );
}

/// On a ring with nodes, the entry a keyword is routed to has a prefix that
/// agrees with the keyword's digest.
pub proof fn routed_entry_matches_keyword(ring: &EPRing, keyword: Seq<u8>)
    requires
        ring.wf(),
        ring.names().len() > 0,
    ensures
        ring.route_digits(digest_nibbles(keyword)) matches Some(rt) && prefix_matches_spec(
            keyword,
            vstd::utf8::encode_utf8(ring.entry_list()[rt.entry_index as int].prefix),
        ),
{
    let ks = digest_nibbles(keyword);
    lemma_hex_of_bytes_nibbles(digest_bytes_spec(keyword));
    lemma_le_bytes_len(xxh3_128_spec(keyword) as nat, 16);
    ring.lemma_route_lands(ks);
    let rt = ring.route_digits(ks).unwrap();
    let e = ring.entry_list()[rt.entry_index as int];
    let part = ks.take(e.prefix_len as int);
    assert(all_nibbles(part)) by {
        assert forall|i: int| 0 <= i < part.len() implies #[trigger] part[i] < 16 by {
            assert(part[i] == ks[i]);
        }
    }
    lemma_hex_chars_bytes(part);
    let pb = vstd::utf8::encode_utf8(e.prefix);
    vstd::utf8::is_ascii_chars_encode_utf8(e.prefix);
    assert forall|i: int| 0 <= i < min_nat(pb.len(), 32) implies #[trigger] hex_nibble_spec(pb[i])
        == digest_nibbles(keyword)[i] by {
        assert(nibbles_of(pb)[i] == part[i]);
    }
}

impl EPRing {
    /// With enough digits (at least 32, all below 16), routing on a ring with
    /// nodes ends at a leaf whose prefix spells the digits.
    pub proof fn lemma_route_lands(&self, ks: Seq<u8>)
        requires
            self.wf(),
            self.names().len() > 0,
            ks.len() >= 32,
            all_nibbles(ks),
        ensures
            self.digits_suffice(ks),
            self.routed_to_leaf(self.route_digits(ks), ks),
    {
        let es = self.entry_list();
        let n = self.node_names@.len();
        let r = self.root_prefix_len as nat;
        lemma_pow16_monotone(0, r);
        let root = nibbles_value(ks.take(r as int));
        assert(all_nibbles(ks.take(r as int))) by {
            assert forall|i: int| 0 <= i < r implies #[trigger] ks.take(r as int)[i] < 16 by {
                assert(ks.take(r as int)[i] == ks[i]);
            }
        }
        lemma_nibbles_value_bound(ks.take(r as int));
        lemma_hex_fixed_of_value(ks.take(r as int));
        lemma_descent_within_long(es, n as nat, ks, root as int);
        assert(es.len() == self.entries.len());
        lemma_descend_lands(es, n as nat, ks, root as int);
    }
}

pub proof fn lemma_minimal_prefix_len_monotone(a: nat, b: nat)
    requires
        a <= b,
    ensures
        minimal_prefix_len_spec(a) <= minimal_prefix_len_spec(b),
    decreases b,
{
    if a > 1 {
        lemma_minimal_prefix_len_monotone(((a + 15) / 16) as nat, ((b + 15) / 16) as nat);
    }
}

/// Fewer nodes need no more root entries.
pub proof fn lemma_ring_fits_fewer(a: nat, b: nat)
    requires
        a <= b,
        ring_fits(b),
    ensures
        ring_fits(a),
{
    if a > 0 {
        lemma_minimal_prefix_len_monotone(a, b);
        lemma_pow16_monotone(minimal_prefix_len_spec(a), minimal_prefix_len_spec(b));
    }
}

impl EPRing {
    /// A well-formed ring's root entries fit in memory.
    pub proof fn lemma_ring_fits(&self)
        requires
            self.wf(),
        ensures
            ring_fits(self.names().len()),
    {
        assert(self.entries.len() == self.entry_list().len());
    }
}

/// One more digit takes the walk one more step from where it stood.
proof fn lemma_find_walk_extend(es: Seq<EntryView>, ks: Seq<u8>, i: int, d: int, e: int)
    requires
        d <= e,
    ensures
        find_walk(es, ks, i, d, e + 1) == match find_walk(es, ks, i, d, e) {
            Some(x) => if 0 <= x < es.len() {
                match es[x].split_child_start {
                    Some(c) => Some(c + ks[e]),
                    None => None,
                }
            } else {
                None
            },
            None => None,
        },
    decreases e - d,
{
    if 0 <= i < es.len() {
        match es[i].split_child_start {
            Some(c) => {
                if d < e {
                    lemma_find_walk_extend(es, ks, c + ks[d], d + 1, e);
                } else {
                    assert(find_walk(es, ks, c + ks[d], d + 1, e + 1) == Some(c + ks[d]));
                }
            },
            None => {},
        }
    }
}

/// The walk reads only the digits it passes.
proof fn lemma_find_walk_same_digits(es: Seq<EntryView>, ks1: Seq<u8>, ks2: Seq<u8>, i: int, d: int, e: int)
    requires
        forall|k: int| d <= k < e ==> ks1[k] == ks2[k],
    ensures
        find_walk(es, ks1, i, d, e) == find_walk(es, ks2, i, d, e),
    decreases e - d,
{
    if d < e && 0 <= i < es.len() {
        match es[i].split_child_start {
            Some(c) => {
                assert(ks1[d] == ks2[d]);
                lemma_find_walk_same_digits(es, ks1, ks2, c + ks1[d], d + 1, e);
            },
            None => {},
        }
    }
}

/// The digit values of a lower-case hexadecimal text.
pub open spec fn text_digits(s: Seq<char>) -> Seq<u8> {
    s.map_values(|c: char| char_nibble(c))
}

proof fn lemma_text_digits_of_hex(ns: Seq<u8>)
    requires
        all_nibbles(ns),
    ensures
        text_digits(hex_chars(ns)) == ns,
{
    assert forall|i: int| 0 <= i < ns.len() implies #[trigger] text_digits(hex_chars(ns))[i] == ns[i] by {
        assert(ns[i] < 16);
        lemma_char_nibble_hex_digit(ns[i] as nat);
    }
    assert(text_digits(hex_chars(ns)) =~= ns);
}

proof fn lemma_text_digits_nibbles(s: Seq<char>)
    ensures
        all_nibbles(text_digits(s)),
{
}

/// Walking from the root along the digits of an entry's prefix ends at that
/// entry.
proof fn lemma_entry_walk(es: Seq<EntryView>, n: nat, r: nat, j: int)
    requires
        forall|k: int| 0 <= k < es.len() ==> #[trigger] entry_ok(es, n, k),
        lineage_ok(es, r),
        roots_ok(es, r),
        0 <= j < es.len(),
    ensures
        text_digits(es[j].prefix).len() == es[j].prefix_len,
        es[j].prefix_len >= r,
        find_walk(
            es,
            text_digits(es[j].prefix),
            nibbles_value(text_digits(es[j].prefix).take(r as int)) as int,
            r as int,
            es[j].prefix_len as int,
        ) == Some(j),
    decreases j,
{
    assert(entry_ok(es, n, j));
    assert(es[j].prefix_len >= r && is_hex_text(es[j].prefix));
    let ks = text_digits(es[j].prefix);
    if j < pow16(r) {
        lemma_fixed_digits(j as nat, r);
        lemma_text_digits_of_hex(fixed_digits(j as nat, r));
        assert(es[j].prefix == hex_fixed(j as nat, r));
        assert(ks == fixed_digits(j as nat, r));
        assert(ks.take(r as int) =~= ks);
    } else {
        assert(has_parent(es, j));
        let p = choose|p: int| parent_of(es, p, j);
        let c = es[p].split_child_start.unwrap() as int;
        assert(entry_ok(es, n, p));
        assert(es[j].prefix_len == es[p].prefix_len + 1);
        assert(es[j].prefix == es[p].prefix.push(hex_digit((j - c) as nat)));
        lemma_entry_walk(es, n, r, p);
        let ksp = text_digits(es[p].prefix);
        let d = (j - c) as nat;
        lemma_char_nibble_hex_digit(d);
        assert(ks =~= ksp.push(d as u8));
        let pl = es[p].prefix_len as int;
        assert(ks.take(r as int) =~= ksp.take(r as int));
        let root = nibbles_value(ksp.take(r as int)) as int;
        lemma_find_walk_same_digits(es, ks, ksp, root, r as int, pl);
        lemma_find_walk_extend(es, ks, root, r as int, pl);
        assert(ks[pl] == d as u8);
    }
}

/// Every entry is found again by its own prefix.
pub proof fn entry_found_by_its_prefix(ring: &EPRing, i: int)
    requires
        ring.wf(),
        0 <= i < ring.entry_list().len(),
    ensures
        ring.find_spec(vstd::utf8::encode_utf8(ring.entry_list()[i].prefix)) == Some(i as usize),
{
    ring.lemma_entry_walk_at(i);
}

impl EPRing {
    proof fn lemma_entry_walk_at(&self, i: int)
        requires
            self.wf(),
            0 <= i < self.entry_list().len(),
        ensures
            self.find_spec(vstd::utf8::encode_utf8(self.entry_list()[i].prefix)) == Some(i as usize),
    {
        let es = self.entry_list();
        let n = self.node_names@.len() as nat;
        let r = self.root_prefix_len as nat;
        assert(n > 0);
        assert(es.len() == self.entries.len());
        lemma_entry_walk(es, n, r, i);
        let p = es[i].prefix;
        assert(es[i].prefix_len >= r && is_hex_text(p));
        let ns = text_digits(p);
        lemma_text_digits_nibbles(p);
        assert(p == hex_chars(ns));
        lemma_hex_chars_bytes(ns);
        vstd::utf8::is_ascii_chars_encode_utf8(hex_chars(ns));
        assert(entry_ok(es, n, i));
        let bytes = vstd::utf8::encode_utf8(p);
        assert(bytes.len() == es[i].prefix_len);
        assert(nibbles_of(bytes) == ns);
    }
}
} // verus!
