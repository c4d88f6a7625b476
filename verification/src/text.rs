//! Character-level helpers shared by the parsers, routers and formatters.
use vstd::prelude::*;

verus! {

/// Appends one character to a string.
#[verifier::external_body]
fn push_char(s: &mut String, c: char)
    ensures
        final(s)@ == old(s)@.push(c),
{
    s.push(c)
}

/// The characters of a string slice, in order.
pub fn chars_of(s: &str) -> (v: Vec<char>)
    ensures
        v@ == s@,
{
    let mut v: Vec<char> = Vec::new();
    for c in it: s.chars()
        invariant
            it.seq() == s@,
            v@ == it.seq().take(it.index() as int),
    {
        v.push(c);
    }
    v
}

/// A string holding the given characters.
pub fn string_from_chars(v: &[char]) -> (s: String)
    ensures
        s@ == v@,
{
    let mut s = String::new();
    let mut i: usize = 0;
    while i < v.len()
        invariant
            i <= v.len(),
            s@ == v@.take(i as int),
        decreases v.len() - i,
    {
        push_char(&mut s, v[i]);
        assert(v@.take(i + 1) == v@.take(i as int).push(v@[i as int]));
        i = i + 1;
    }
    assert(v@.take(v.len() as int) == v@);
    s
}

} // verus!

verus! {

/// Unicode `White_Space` characters, the set that `char::is_whitespace` accepts.
pub open spec fn is_ws(c: char) -> bool {
    ||| ('\u{9}' <= c && c <= '\u{d}')
    ||| c == ' '
    ||| c == '\u{85}'
    ||| c == '\u{a0}'
    ||| c == '\u{1680}'
    ||| ('\u{2000}' <= c && c <= '\u{200a}')
    ||| c == '\u{2028}'
    ||| c == '\u{2029}'
    ||| c == '\u{202f}'
    ||| c == '\u{205f}'
    ||| c == '\u{3000}'
}

/// Whether `c` is a Unicode white-space character.
pub fn is_whitespace(c: char) -> (b: bool)
    ensures
        b == is_ws(c),
{
    ('\u{9}' <= c && c <= '\u{d}') || c == ' ' || c == '\u{85}' || c == '\u{a0}'
        || c == '\u{1680}' || ('\u{2000}' <= c && c <= '\u{200a}') || c == '\u{2028}'
        || c == '\u{2029}' || c == '\u{202f}' || c == '\u{205f}' || c == '\u{3000}'
}

/// `s` without its leading white space.
pub open spec fn trim_start(s: Seq<char>) -> Seq<char>
    decreases s.len(),
{
    if s.len() > 0 && is_ws(s[0]) {
        trim_start(s.drop_first())
    } else {
        s
    }
}

/// `s` without its trailing white space.
pub open spec fn trim_end(s: Seq<char>) -> Seq<char>
    decreases s.len(),
{
    if s.len() > 0 && is_ws(s.last()) {
        trim_end(s.drop_last())
    } else {
        s
    }
}

/// `s` without leading and trailing white space (what `str::trim` gives).
pub open spec fn trim(s: Seq<char>) -> Seq<char> {
    trim_end(trim_start(s))
}

proof fn lemma_trim_start_from(v: Seq<char>, a: int, end: int)
    requires
        0 <= a < end <= v.len(),
        is_ws(v[a]),
    ensures
        trim_start(v.subrange(a, end)) == trim_start(v.subrange(a + 1, end)),
{
    assert(v.subrange(a, end).drop_first() =~= v.subrange(a + 1, end));
}

proof fn lemma_trim_end_from(v: Seq<char>, a: int, b: int)
    requires
        0 <= a < b <= v.len(),
        is_ws(v[b - 1]),
    ensures
        trim_end(v.subrange(a, b)) == trim_end(v.subrange(a, b - 1)),
{
    assert(v.subrange(a, b).drop_last() =~= v.subrange(a, b - 1));
}

/// The characters `v[start..end]` without leading and trailing white space.
pub fn trimmed_range(v: &Vec<char>, start: usize, end: usize) -> (r: Vec<char>)
    requires
        start <= end <= v.len(),
    ensures
        r@ == trim(v@.subrange(start as int, end as int)),
{
    let mut a = start;
    while a < end && is_whitespace(v[a])
        invariant
            start <= a <= end <= v.len(),
            trim_start(v@.subrange(start as int, end as int)) == trim_start(
                v@.subrange(a as int, end as int),
            ),
        decreases end - a,
    {
        proof {
            lemma_trim_start_from(v@, a as int, end as int);
        }
        a = a + 1;
    }
    let mut b = end;
    while b > a && is_whitespace(v[b - 1])
        invariant
            start <= a <= b <= end <= v.len(),
            trim_end(v@.subrange(a as int, end as int)) == trim_end(
                v@.subrange(a as int, b as int),
            ),
        decreases b - a,
    {
        proof {
            lemma_trim_end_from(v@, a as int, b as int);
        }
        b = b - 1;
    }
    let mut r: Vec<char> = Vec::new();
    let mut i = a;
    while i < b
        invariant
            a <= i <= b <= v.len(),
            r@ == v@.subrange(a as int, i as int),
        decreases b - i,
    {
        r.push(v[i]);
        assert(v@.subrange(a as int, i + 1) =~= v@.subrange(a as int, i as int).push(v@[i as int]));
        i = i + 1;
    }
    r
}

} // verus!

verus! {

/// The set of the character sequences of `v`.
pub open spec fn string_set(v: Seq<String>) -> Set<Seq<char>> {
    Set::new(|k: Seq<char>| exists|i: int| 0 <= i < v.len() && v[i]@ == k)
}

/// No two strings of `v` have the same characters.
pub open spec fn distinct_strings(v: Seq<String>) -> bool {
    forall|i: int, j: int| 0 <= i < v.len() && 0 <= j < v.len() && i != j ==> v[i]@ != v[j]@
}

/// Whether some string of `v` has the characters of `s`.
pub fn contains_string(v: &Vec<String>, s: &String) -> (b: bool)
    ensures
        b == string_set(v@).contains(s@),
{
    let mut i: usize = 0;
    while i < v.len()
        invariant
            i <= v.len(),
            forall|j: int| 0 <= j < i ==> v@[j]@ != s@,
        decreases v.len() - i,
    {
        if v[i] == *s {
            return true;
        }
        i = i + 1;
    }
    false
}

/// The strings of `v`, each kept at its first occurrence.
pub fn dedup_strings(v: &Vec<String>) -> (r: Vec<String>)
    ensures
        distinct_strings(r@),
        string_set(r@) == string_set(v@),
{
    let mut r: Vec<String> = Vec::new();
    let mut i: usize = 0;
    while i < v.len()
        invariant
            i <= v.len(),
            distinct_strings(r@),
            string_set(r@) == string_set(v@.take(i as int)),
        decreases v.len() - i,
    {
        let ghost before = r@;
        let ghost prev = v@.take(i as int);
        let ghost next = v@.take(i + 1);
        if !contains_string(&r, &v[i]) {
            r.push(v[i].clone());
        }
        proof {
            assert(string_set(r@) =~= string_set(next)) by {
                assert forall|k: Seq<char>| string_set(next).contains(k) implies string_set(
                    r@,
                ).contains(k) by {
                    let j = choose|j: int| 0 <= j < i + 1 && next[j]@ == k;
                    if j < i {
                        assert(prev[j] == next[j]);
                        assert(string_set(prev).contains(k));
                        assert(string_set(before).contains(k));
                        let m = choose|m: int| 0 <= m < before.len() && before[m]@ == k;
                        assert(r@[m] == before[m]);
                    } else if before.len() < r@.len() {
                        assert(r@[before.len() as int]@ == k);
                    }
                }
                assert forall|k: Seq<char>| string_set(r@).contains(k) implies string_set(
                    next,
                ).contains(k) by {
                    let m = choose|m: int| 0 <= m < r@.len() && r@[m]@ == k;
                    if m < before.len() {
                        assert(r@[m] == before[m]);
                        assert(string_set(before).contains(k));
                        let j = choose|j: int| 0 <= j < i && prev[j]@ == k;
                        assert(next[j] == prev[j]);
                    } else {
                        assert(next[i as int] == v@[i as int]);
                    }
                }
            }
        }
        i = i + 1;
    }
    assert(v@.take(v.len() as int) =~= v@);
    r
}

/// The strings of `a` that also occur in `b`.
pub fn intersect_strings(a: &Vec<String>, b: &Vec<String>) -> (r: Vec<String>)
    requires
        distinct_strings(a@),
    ensures
        distinct_strings(r@),
        string_set(r@) == string_set(a@).intersect(string_set(b@)),
{
    let mut r: Vec<String> = Vec::new();
    let mut i: usize = 0;
    while i < a.len()
        invariant
            i <= a.len(),
            distinct_strings(a@),
            distinct_strings(r@),
            string_set(r@) == string_set(a@.take(i as int)).intersect(string_set(b@)),
            forall|m: int| 0 <= m < r@.len() ==> string_set(a@.take(i as int)).contains(#[trigger] r@[m]@),
        decreases a.len() - i,
    {
        let ghost before = r@;
        let ghost prev = a@.take(i as int);
        let ghost next = a@.take(i + 1);
        if contains_string(b, &a[i]) {
            r.push(a[i].clone());
            proof {
                assert forall|m: int| 0 <= m < before.len() implies r@[m]@ != a@[i as int]@ by {
                    assert(r@[m] == before[m]);
                    assert(string_set(prev).contains(before[m]@));
                    let j = choose|j: int| 0 <= j < i && prev[j]@ == before[m]@;
                    assert(prev[j] == a@[j]);
                }
            }
        }
        proof {
            assert(string_set(r@) =~= string_set(next).intersect(string_set(b@))) by {
                assert forall|k: Seq<char>|
                    string_set(next).intersect(string_set(b@)).contains(
                        k,
                    ) implies string_set(r@).contains(k) by {
                    let j = choose|j: int| 0 <= j < i + 1 && next[j]@ == k;
                    if j < i {
                        assert(prev[j] == next[j]);
                        assert(string_set(prev).contains(k));
                        assert(string_set(prev).intersect(string_set(b@)).contains(k));
                        assert(string_set(before).contains(k));
                        let m = choose|m: int| 0 <= m < before.len() && before[m]@ == k;
                        assert(r@[m] == before[m]);
                    } else {
                        assert(next[j] == a@[i as int]);
                        assert(r@[before.len() as int]@ == k);
                    }
                }
                assert forall|k: Seq<char>| string_set(r@).contains(k) implies string_set(
                    next,
                ).intersect(string_set(b@)).contains(k) by {
                    let m = choose|m: int| 0 <= m < r@.len() && r@[m]@ == k;
                    if m < before.len() {
                        assert(r@[m] == before[m]);
                        assert(string_set(before).contains(k));
                        let j = choose|j: int| 0 <= j < i && prev[j]@ == k;
                        assert(next[j] == prev[j]);
                    } else {
                        assert(next[i as int] == a@[i as int]);
                    }
                }
            }
            assert forall|m: int| 0 <= m < r@.len() implies string_set(next).contains(
                #[trigger] r@[m]@,
            ) by {
                if m < before.len() {
                    assert(r@[m] == before[m]);
                    let j = choose|j: int| 0 <= j < i && prev[j]@ == before[m]@;
                    assert(next[j] == prev[j]);
                } else {
                    assert(next[i as int] == a@[i as int]);
                }
            }
        }
        i = i + 1;
    }
    assert(a@.take(a.len() as int) =~= a@);
    r
}

/// The strings of `a` that do not occur in `b`.
pub fn difference_strings(a: &Vec<String>, b: &Vec<String>) -> (r: Vec<String>)
    requires
        distinct_strings(a@),
    ensures
        distinct_strings(r@),
        string_set(r@) == string_set(a@).difference(string_set(b@)),
{
    let mut r: Vec<String> = Vec::new();
    let mut i: usize = 0;
    while i < a.len()
        invariant
            i <= a.len(),
            distinct_strings(a@),
            distinct_strings(r@),
            string_set(r@) == string_set(a@.take(i as int)).difference(string_set(b@)),
            forall|m: int| 0 <= m < r@.len() ==> string_set(a@.take(i as int)).contains(#[trigger] r@[m]@),
        decreases a.len() - i,
    {
        let ghost before = r@;
        let ghost prev = a@.take(i as int);
        let ghost next = a@.take(i + 1);
        if !contains_string(b, &a[i]) {
            r.push(a[i].clone());
            proof {
                assert forall|m: int| 0 <= m < before.len() implies r@[m]@ != a@[i as int]@ by {
                    assert(r@[m] == before[m]);
                    assert(string_set(prev).contains(before[m]@));
                    let j = choose|j: int| 0 <= j < i && prev[j]@ == before[m]@;
                    assert(prev[j] == a@[j]);
                }
            }
        }
        proof {
            assert(string_set(r@) =~= string_set(next).difference(string_set(b@))) by {
                assert forall|k: Seq<char>|
                    string_set(next).difference(string_set(b@)).contains(
                        k,
                    ) implies string_set(r@).contains(k) by {
                    let j = choose|j: int| 0 <= j < i + 1 && next[j]@ == k;
                    if j < i {
                        assert(prev[j] == next[j]);
                        assert(string_set(prev).contains(k));
                        assert(string_set(prev).difference(string_set(b@)).contains(k));
                        assert(string_set(before).contains(k));
                        let m = choose|m: int| 0 <= m < before.len() && before[m]@ == k;
                        assert(r@[m] == before[m]);
                    } else {
                        assert(next[j] == a@[i as int]);
                        assert(r@[before.len() as int]@ == k);
                    }
                }
                assert forall|k: Seq<char>| string_set(r@).contains(k) implies string_set(
                    next,
                ).difference(string_set(b@)).contains(k) by {
                    let m = choose|m: int| 0 <= m < r@.len() && r@[m]@ == k;
                    if m < before.len() {
                        assert(r@[m] == before[m]);
                        assert(string_set(before).contains(k));
                        let j = choose|j: int| 0 <= j < i && prev[j]@ == k;
                        assert(next[j] == prev[j]);
                    } else {
                        assert(next[i as int] == a@[i as int]);
                    }
                }
            }
            assert forall|m: int| 0 <= m < r@.len() implies string_set(next).contains(
                #[trigger] r@[m]@,
            ) by {
                if m < before.len() {
                    assert(r@[m] == before[m]);
                    let j = choose|j: int| 0 <= j < i && prev[j]@ == before[m]@;
                    assert(next[j] == prev[j]);
                } else {
                    assert(next[i as int] == a@[i as int]);
                }
            }
        }
        i = i + 1;
    }
    assert(a@.take(a.len() as int) =~= a@);
    r
}

/// The strings of `a`, followed by those of `b` that `a` lacks.
pub fn union_strings(a: &Vec<String>, b: &Vec<String>) -> (r: Vec<String>)
    requires
        distinct_strings(a@),
        distinct_strings(b@),
    ensures
        distinct_strings(r@),
        string_set(r@) == string_set(a@).union(string_set(b@)),
{
    let mut r: Vec<String> = Vec::new();
    let mut i: usize = 0;
    while i < a.len()
        invariant
            i <= a.len(),
            distinct_strings(a@),
            r@ == a@.take(i as int),
        decreases a.len() - i,
    {
        r.push(a[i].clone());
        assert(a@.take(i + 1) =~= a@.take(i as int).push(a@[i as int]));
        i = i + 1;
    }
    assert(a@.take(a.len() as int) =~= a@);
    let mut j: usize = 0;
    while j < b.len()
        invariant
            j <= b.len(),
            distinct_strings(r@),
            string_set(r@) == string_set(a@).union(string_set(b@.take(j as int))),
        decreases b.len() - j,
    {
        let ghost before = r@;
        let ghost prev = b@.take(j as int);
        let ghost next = b@.take(j + 1);
        if !contains_string(&r, &b[j]) {
            r.push(b[j].clone());
        }
        proof {
            assert(string_set(r@) =~= string_set(a@).union(string_set(next))) by {
                assert forall|k: Seq<char>|
                    string_set(a@).union(string_set(next)).contains(k) implies string_set(
                    r@,
                ).contains(k) by {
                    if string_set(a@).contains(k) {
                        assert(string_set(before).contains(k));
                        let m = choose|m: int| 0 <= m < before.len() && before[m]@ == k;
                        assert(r@[m] == before[m]);
                    } else {
                        let x = choose|x: int| 0 <= x < j + 1 && next[x]@ == k;
                        if x < j {
                            assert(prev[x] == next[x]);
                            assert(string_set(prev).contains(k));
                            assert(string_set(before).contains(k));
                            let m = choose|m: int| 0 <= m < before.len() && before[m]@ == k;
                            assert(r@[m] == before[m]);
                        } else if before.len() < r@.len() {
                            assert(r@[before.len() as int]@ == k);
                        }
                    }
                }
                assert forall|k: Seq<char>| string_set(r@).contains(k) implies string_set(
                    a@,
                ).union(string_set(next)).contains(k) by {
                    let m = choose|m: int| 0 <= m < r@.len() && r@[m]@ == k;
                    if m < before.len() {
                        assert(r@[m] == before[m]);
                        assert(string_set(before).contains(k));
                        if !string_set(a@).contains(k) {
                            let x = choose|x: int| 0 <= x < j && prev[x]@ == k;
                            assert(next[x] == prev[x]);
                        }
                    } else {
                        assert(next[j as int] == b@[j as int]);
                    }
                }
            }
        }
        j = j + 1;
    }
    assert(b@.take(b.len() as int) =~= b@);
    r
}

} // verus!

verus! {

/// The decimal digit for `d < 10`.
pub open spec fn digit_char(d: nat) -> char {
    if d == 0 {
        '0'
    } else if d == 1 {
        '1'
    } else if d == 2 {
        '2'
    } else if d == 3 {
        '3'
    } else if d == 4 {
        '4'
    } else if d == 5 {
        '5'
    } else if d == 6 {
        '6'
    } else if d == 7 {
        '7'
    } else if d == 8 {
        '8'
    } else {
        '9'
    }
}

/// Decimal notation of `n`, without leading zeros.
pub open spec fn decimal(n: nat) -> Seq<char>
    decreases n,
{
    if n < 10 {
        seq![digit_char(n)]
    } else {
        decimal(n / 10).push(digit_char(n % 10))
    }
}

pub proof fn lemma_decimal_has_no(n: nat, c: char)
    requires
        !('0' <= c && c <= '9'),
    ensures
        !decimal(n).contains(c),
    decreases n,
{
    if n >= 10 {
        lemma_decimal_has_no(n / 10, c);
        assert(decimal(n) == decimal(n / 10).push(digit_char(n % 10)));
        if decimal(n).contains(c) {
            let i = choose|i: int| 0 <= i < decimal(n).len() && decimal(n)[i] == c;
            if i < decimal(n / 10).len() {
                assert(decimal(n / 10)[i] == c);
            }
        }
    } else {
        if decimal(n).contains(c) {
            let i = choose|i: int| 0 <= i < decimal(n).len() && decimal(n)[i] == c;
            assert(i == 0);
        }
    }
}

fn digit(d: usize) -> (c: char)
    requires
        d < 10,
    ensures
        c == digit_char(d as nat),
{
    if d == 0 {
        '0'
    } else if d == 1 {
        '1'
    } else if d == 2 {
        '2'
    } else if d == 3 {
        '3'
    } else if d == 4 {
        '4'
    } else if d == 5 {
        '5'
    } else if d == 6 {
        '6'
    } else if d == 7 {
        '7'
    } else if d == 8 {
        '8'
    } else {
        '9'
    }
}

/// Appends the decimal notation of `n`.
pub fn push_decimal(v: &mut Vec<char>, n: usize)
    ensures
        final(v)@ == old(v)@ + decimal(n as nat),
    decreases n,
{
    if n >= 10 {
        push_decimal(v, n / 10);
    }
    v.push(digit(n % 10));
    proof {
        if n >= 10 {
            assert(decimal(n as nat) == decimal((n / 10) as nat).push(digit_char((n % 10) as nat)));
        }
    }
    assert(final(v)@ =~= old(v)@ + decimal(n as nat)) by {
        if n < 10 {
            assert(decimal(n as nat) == seq![digit_char(n as nat)]);
        }
    }
}

/// Appends the characters of `s`.
pub fn push_str(v: &mut Vec<char>, s: &str)
    ensures
        final(v)@ == old(v)@ + s@,
{
    let cs = chars_of(s);
    let mut i: usize = 0;
    let ghost start = v@;
    while i < cs.len()
        invariant
            i <= cs.len(),
            cs@ == s@,
            v@ == start + cs@.take(i as int),
        decreases cs.len() - i,
    {
        v.push(cs[i]);
        assert(cs@.take(i + 1) =~= cs@.take(i as int).push(cs@[i as int]));
        i = i + 1;
    }
    assert(cs@.take(cs.len() as int) =~= cs@);
}

/// Whether `c` occurs in `v`.
pub fn contains_char(v: &Vec<char>, c: char) -> (b: bool)
    ensures
        b == v@.contains(c),
{
    let mut i: usize = 0;
    while i < v.len()
        invariant
            i <= v.len(),
            forall|j: int| 0 <= j < i ==> v@[j] != c,
        decreases v.len() - i,
    {
        if v[i] == c {
            return true;
        }
        i = i + 1;
    }
    false
}

/// Whether two string slices hold the same characters.
pub fn str_eq(a: &str, b: &str) -> (r: bool)
    ensures
        r == (a@ == b@),
{
    let x = chars_of(a);
    let y = chars_of(b);
    if x.len() != y.len() {
        return false;
    }
    let mut i: usize = 0;
    while i < x.len()
        invariant
            i <= x.len() == y.len(),
            x@ == a@,
            y@ == b@,
            forall|j: int| 0 <= j < i ==> x@[j] == y@[j],
        decreases x.len() - i,
    {
        if x[i] != y[i] {
            assert(x@[i as int] != y@[i as int]);
            return false;
        }
        i = i + 1;
    }
    assert(x@ =~= y@);
    true
}

} // verus!

verus! {

/// Appends the decimal notation of a 64-bit number.
pub fn push_decimal_u64(v: &mut Vec<char>, n: u64)
    ensures
        final(v)@ == old(v)@ + decimal(n as nat),
    decreases n,
{
    if n >= 10 {
        push_decimal_u64(v, n / 10);
    }
    v.push(digit((n % 10) as usize));
    proof {
        if n >= 10 {
            assert(decimal(n as nat) == decimal((n / 10) as nat).push(digit_char((n % 10) as nat)));
        }
    }
    assert(final(v)@ =~= old(v)@ + decimal(n as nat)) by {
        if n < 10 {
            assert(decimal(n as nat) == seq![digit_char(n as nat)]);
        }
    }
}

/// Lower-case hexadecimal digit for `d < 16`.
pub open spec fn hex_digit(d: nat) -> char {
    if d < 10 {
        digit_char(d)
    } else if d == 10 {
        'a'
    } else if d == 11 {
        'b'
    } else if d == 12 {
        'c'
    } else if d == 13 {
        'd'
    } else if d == 14 {
        'e'
    } else {
        'f'
    }
}

pub fn hex_digit_char(d: u8) -> (c: char)
    requires
        d < 16,
    ensures
        c == hex_digit(d as nat),
{
    if d < 10 {
        digit(d as usize)
    } else if d == 10 {
        'a'
    } else if d == 11 {
        'b'
    } else if d == 12 {
        'c'
    } else if d == 13 {
        'd'
    } else if d == 14 {
        'e'
    } else {
        'f'
    }
}

/// Lower-case hexadecimal notation of bytes, two digits per byte.
pub open spec fn hex_of_bytes(bytes: Seq<u8>) -> Seq<char>
    decreases bytes.len(),
{
    if bytes.len() == 0 {
        Seq::empty()
    } else {
        hex_of_bytes(bytes.drop_last()).push(hex_digit((bytes.last() / 16) as nat)).push(
            hex_digit((bytes.last() % 16) as nat),
        )
    }
}

/// Appends the hexadecimal notation of `bytes`.
pub fn push_hex(v: &mut Vec<char>, bytes: &[u8])
    ensures
        final(v)@ == old(v)@ + hex_of_bytes(bytes@),
{
    let ghost start = v@;
    let mut i: usize = 0;
    assert(bytes@.take(0) =~= Seq::<u8>::empty());
    assert(start + hex_of_bytes(Seq::<u8>::empty()) =~= start);
    while i < bytes.len()
        invariant
            i <= bytes.len(),
            v@ == start + hex_of_bytes(bytes@.take(i as int)),
        decreases bytes.len() - i,
    {
        let b = bytes[i];
        assert(b >> 4 == b / 16 && b & 0x0f == b % 16) by (bit_vector);
        v.push(hex_digit_char(b >> 4));
        v.push(hex_digit_char(b & 0x0f));
        assert(bytes@.take(i + 1).drop_last() =~= bytes@.take(i as int));
        assert(bytes@.take(i + 1).last() == b);
        i = i + 1;
    }
    assert(bytes@.take(bytes.len() as int) =~= bytes@);
}


/// The lower-case form of a string, as `str::to_lowercase` computes it.
pub uninterp spec fn lowercase_spec(s: Seq<char>) -> Seq<char>;

/// The lower-case form of an ASCII character: `A`-`Z` become `a`-`z`, every
/// other character stays.
pub open spec fn ascii_lower(c: char) -> char {
    if 'A' <= c && c <= 'Z' {
        ((c as int) + 32) as char
    } else {
        c
    }
}

/// `str::to_lowercase`: the Unicode lower-case mapping of a string, a function
/// of its characters alone, whose value is left to the name
/// `lowercase_spec`; on ASCII text it maps `A`-`Z` to `a`-`z` and keeps every
/// other character. What it does to other characters is not stated.
#[verifier::external_body]
pub(crate) fn to_lowercase(s: &str) -> (r: String)
    ensures
        r@ == lowercase_spec(s@),
        vstd::utf8::is_ascii_chars(s@) ==> r@ == s@.map_values(|c: char| ascii_lower(c)),
{
    s.to_lowercase()
}

} // verus!
