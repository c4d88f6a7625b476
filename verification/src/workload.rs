//! The client's workload files: upload records (`fid,keyword,...`), query
//! expressions (one per line) and updates (`fid,old_keyword,new_keyword`).
//! Lines are trimmed after any leading byte-order marks; empty lines and
//! lines starting with `#` are skipped.
use vstd::prelude::*;
use crate::text::{
    chars_of, dedup_strings, distinct_strings, string_from_chars, string_set, trim, trimmed_range, union_strings,
};

verus! {

/// The pieces of `s` between occurrences of `sep` (one piece more than there
/// are separators).
pub open spec fn split_at_char(s: Seq<char>, sep: char) -> Seq<Seq<char>>
    decreases s.len(),
{
    if s.len() == 0 {
        seq![Seq::<char>::empty()]
    } else {
        let p = split_at_char(s.drop_last(), sep);
        if s.last() == sep {
            p.push(Seq::<char>::empty())
        } else {
            p.update(p.len() - 1, p.last().push(s.last()))
        }
    }
}

/// The lines of a text as `str::lines` gives them, up to a carriage return
/// before each line feed (which the trimming of each line removes): the
/// pieces between line feeds, without the empty piece after a final one.
pub open spec fn text_lines(s: Seq<char>) -> Seq<Seq<char>> {
    let p = split_at_char(s, '\n');
    if p.last().len() == 0 {
        p.drop_last()
    } else {
        p
    }
}

/// `s` without its leading byte-order marks.
pub open spec fn strip_boms(s: Seq<char>) -> Seq<char>
    decreases s.len(),
{
    if s.len() > 0 && s[0] == '\u{feff}' {
        strip_boms(s.drop_first())
    } else {
        s
    }
}

/// A line as it is read: leading byte-order marks dropped, then trimmed.
pub open spec fn clean_line(l: Seq<char>) -> Seq<char> {
    trim(strip_boms(l))
}

/// A cleaned line that carries nothing: empty, or a comment.
pub open spec fn skipped_line(c: Seq<char>) -> bool {
    c.len() == 0 || c[0] == '#'
}

/// The comma-separated fields of a record line, trimmed, empty ones dropped.
pub open spec fn record_fields(c: Seq<char>) -> Seq<Seq<char>> {
    split_at_char(c, ',').map_values(|p: Seq<char>| trim(p)).filter(|p: Seq<char>| p.len() > 0)
}

/// Splits the characters at each `sep`.
fn split_vec(v: &Vec<char>, sep: char) -> (r: Vec<Vec<char>>)
    ensures
        r@.map_values(|p: Vec<char>| p@) == split_at_char(v@, sep),
        r@.len() >= 1,
{
    let mut pieces: Vec<Vec<char>> = Vec::new();
    pieces.push(Vec::new());
    let mut i: usize = 0;
    assert(v@.take(0) =~= Seq::<char>::empty());
    assert(pieces@.map_values(|p: Vec<char>| p@) =~= split_at_char(v@.take(0), sep));
    while i < v.len()
        invariant
            i <= v@.len(),
            pieces@.len() >= 1,
            pieces@.map_values(|p: Vec<char>| p@) == split_at_char(v@.take(i as int), sep),
        decreases v@.len() - i,
    {
        let ghost before = pieces@.map_values(|p: Vec<char>| p@);
        proof {
            assert(v@.take(i + 1).drop_last() =~= v@.take(i as int));
            assert(v@.take(i + 1).last() == v@[i as int]);
        }
        if v[i] == sep {
            pieces.push(Vec::new());
            assert(pieces@.map_values(|p: Vec<char>| p@) =~= before.push(Seq::<char>::empty()));
        } else {
            let last = pieces.len() - 1;
            let mut cur = pieces.pop().unwrap();
            cur.push(v[i]);
            pieces.push(cur);
            assert(pieces@.map_values(|p: Vec<char>| p@) =~= before.update(
                last as int,
                before[last as int].push(v@[i as int]),
            ));
        }
        i = i + 1;
    }
    assert(v@.take(v@.len() as int) =~= v@);
    pieces
}

/// The lines of a text.
fn lines_of(content: &str) -> (r: Vec<Vec<char>>)
    ensures
        r@.map_values(|p: Vec<char>| p@) == text_lines(content@),
{
    let cs = chars_of(content);
    let mut pieces = split_vec(&cs, '\n');
    let ghost all = pieces@.map_values(|p: Vec<char>| p@);
    if pieces[pieces.len() - 1].len() == 0 {
        pieces.pop();
        assert(pieces@.map_values(|p: Vec<char>| p@) =~= all.drop_last());
    }
    pieces
}

/// A line as it is read.
fn clean(line: &Vec<char>) -> (r: Vec<char>)
    ensures
        r@ == clean_line(line@),
{
    let mut a: usize = 0;
    assert(line@.subrange(0, line@.len() as int) =~= line@);
    while a < line.len() && line[a] == '\u{feff}'
        invariant
            a <= line@.len(),
            strip_boms(line@) == strip_boms(line@.subrange(a as int, line@.len() as int)),
        decreases line@.len() - a,
    {
        assert(line@.subrange(a as int, line@.len() as int).drop_first() =~= line@.subrange(
            a + 1,
            line@.len() as int,
        ));
        a = a + 1;
    }
    assert(line@.subrange(0, line@.len() as int) =~= line@);
    trimmed_range(line, a, line.len())
}

fn is_skipped(c: &Vec<char>) -> (r: bool)
    ensures
        r == skipped_line(c@),
{
    c.len() == 0 || c[0] == '#'
}

/// The fields of a record line.
fn fields_of(c: &Vec<char>) -> (r: Vec<String>)
    ensures
        r@.map_values(|x: String| x@) == record_fields(c@),
{
    let pieces = split_vec(c, ',');
    let ghost ps = split_at_char(c@, ',');
    let ghost trimmed = ps.map_values(|p: Seq<char>| trim(p));
    let ghost keep = |p: Seq<char>| p.len() > 0;
    let mut r: Vec<String> = Vec::new();
    let mut k: usize = 0;
    while k < pieces.len()
        invariant
            k <= pieces@.len(),
            pieces@.map_values(|p: Vec<char>| p@) == ps,
            trimmed == ps.map_values(|p: Seq<char>| trim(p)),
            keep == (|p: Seq<char>| p.len() > 0),
            r@.map_values(|x: String| x@) == trimmed.take(k as int).filter(keep),
        decreases pieces@.len() - k,
    {
        proof {
            reveal(Seq::filter);
            assert(trimmed.take(k + 1).drop_last() =~= trimmed.take(k as int));
            assert(pieces@[k as int]@ == ps[k as int]);
        }
        let piece = &pieces[k];
        let t = trimmed_range(piece, 0, piece.len());
        assert(piece@.subrange(0, piece@.len() as int) =~= piece@);
        if t.len() > 0 {
            let ghost before = r@.map_values(|x: String| x@);
            r.push(string_from_chars(t.as_slice()));
            assert(r@.map_values(|x: String| x@) =~= before.push(trimmed[k as int]));
        }
        k = k + 1;
    }
    assert(trimmed.take(pieces@.len() as int) =~= trimmed);
    r
}

/// A file to upload and its keywords.
pub struct InputRecord {
    pub fid: String,
    pub keywords: Vec<String>,
}

/// An update of a file: the keywords it loses and those it gains.
pub struct UpdateRecord {
    pub fid: String,
    pub old_keywords: Vec<String>,
    pub new_keywords: Vec<String>,
}

/// Why a workload file is refused.
#[derive(Debug, Clone, Copy, PartialEq, Eq, Structural)]
pub enum WorkloadError {
    /// No line holds a file id and a keyword.
    NoRecords,
    /// No line holds a query.
    NoQueries,
    /// No line holds an update.
    NoUpdates,
    /// The line with this number (from 1) is not `fid,old_keyword,new_keyword`.
    InvalidUpdate(usize),
}

pub open spec fn strings_view(v: Seq<String>) -> Seq<Seq<char>> {
    v.map_values(|s: String| s@)
}

pub open spec fn record_view(r: InputRecord) -> (Seq<char>, Seq<Seq<char>>) {
    (r.fid@, strings_view(r.keywords@))
}

pub open spec fn records_view(v: Seq<InputRecord>) -> Seq<(Seq<char>, Seq<Seq<char>>)> {
    v.map_values(|r: InputRecord| record_view(r))
}

/// The records of the first `k` lines, and the numbers (from 1) of the lines
/// among them that carry something but hold fewer than two fields.
pub open spec fn records_upto(lines: Seq<Seq<char>>, k: int) -> (Seq<(Seq<char>, Seq<Seq<char>>)>, Seq<int>)
    decreases k,
{
    if k <= 0 {
        (Seq::empty(), Seq::empty())
    } else {
        let (rs, sk) = records_upto(lines, k - 1);
        let c = clean_line(lines[k - 1]);
        if skipped_line(c) {
            (rs, sk)
        } else if record_fields(c).len() < 2 {
            (rs, sk.push(k))
        } else {
            (rs.push((record_fields(c)[0], record_fields(c).skip(1))), sk)
        }
    }
}

/// Reads upload records: each line that carries something gives its first
/// field as the file id and the others as keywords; lines with fewer than
/// two fields are passed over, and their numbers returned beside the result.
/// Refused when no record is left.
pub fn parse_records(content: &str) -> (r: (Result<Vec<InputRecord>, WorkloadError>, Vec<usize>))
    ensures
        ({
            let (rs, sk) = records_upto(text_lines(content@), text_lines(content@).len() as int);
            &&& r.1@.map_values(|n: usize| n as int) == sk
            &&& match r.0 {
                Ok(v) => rs.len() > 0 && records_view(v@) == rs,
                Err(e) => rs.len() == 0 && e == WorkloadError::NoRecords,
            }
        }),
{
    let lines = lines_of(content);
    let ghost ls = text_lines(content@);
    let mut records: Vec<InputRecord> = Vec::new();
    let mut skipped: Vec<usize> = Vec::new();
    let mut k: usize = 0;
    while k < lines.len()
        invariant
            k <= lines@.len(),
            lines@.map_values(|p: Vec<char>| p@) == ls,
            records_view(records@) == records_upto(ls, k as int).0,
            skipped@.map_values(|n: usize| n as int) == records_upto(ls, k as int).1,
        decreases lines@.len() - k,
    {
        assert(lines@[k as int]@ == ls[k as int]);
        let c = clean(&lines[k]);
        if !is_skipped(&c) {
            let fields = fields_of(&c);
            let ghost fv = record_fields(c@);
            if fields.len() < 2 {
                let ghost before = skipped@;
                skipped.push(k + 1);
                assert(skipped@.map_values(|n: usize| n as int) =~= before.map_values(|n: usize| n as int).push(k + 1));
            } else {
                let mut keywords: Vec<String> = Vec::new();
                let mut j: usize = 1;
                while j < fields.len()
                    invariant
                        1 <= j <= fields@.len(),
                        strings_view(fields@) == fv,
                        strings_view(keywords@) == fv.subrange(1, j as int),
                    decreases fields@.len() - j,
                {
                    let ghost kb = keywords@;
                    keywords.push(fields[j].clone());
                    assert(strings_view(keywords@) =~= strings_view(kb).push(fv[j as int]));
                    assert(fv.subrange(1, j + 1) =~= fv.subrange(1, j as int).push(fv[j as int]));
                    j = j + 1;
                }
                assert(fv.subrange(1, fields@.len() as int) =~= fv.skip(1));
                let ghost before = records@;
                let fid = fields[0].clone();
                records.push(InputRecord { fid, keywords });
                assert(records_view(records@) =~= records_view(before).push((fv[0], fv.skip(1))));
            }
        }
        k = k + 1;
    }
    if records.len() == 0 {
        (Err(WorkloadError::NoRecords), skipped)
    } else {
        (Ok(records), skipped)
    }
}

/// The queries of the first `k` lines: each line that carries something.
pub open spec fn queries_upto(lines: Seq<Seq<char>>, k: int) -> Seq<Seq<char>>
    decreases k,
{
    if k <= 0 {
        Seq::empty()
    } else if skipped_line(clean_line(lines[k - 1])) {
        queries_upto(lines, k - 1)
    } else {
        queries_upto(lines, k - 1).push(clean_line(lines[k - 1]))
    }
}

/// Reads query expressions, one per line that carries something; refused
/// when there is none.
pub fn parse_query_workload(content: &str) -> (r: Result<Vec<String>, WorkloadError>)
    ensures
        ({
            let qs = queries_upto(text_lines(content@), text_lines(content@).len() as int);
            match r {
                Ok(v) => qs.len() > 0 && strings_view(v@) == qs,
                Err(e) => qs.len() == 0 && e == WorkloadError::NoQueries,
            }
        }),
{
    let lines = lines_of(content);
    let ghost ls = text_lines(content@);
    let mut queries: Vec<String> = Vec::new();
    let mut k: usize = 0;
    while k < lines.len()
        invariant
            k <= lines@.len(),
            lines@.map_values(|p: Vec<char>| p@) == ls,
            strings_view(queries@) == queries_upto(ls, k as int),
        decreases lines@.len() - k,
    {
        assert(lines@[k as int]@ == ls[k as int]);
        let c = clean(&lines[k]);
        if !is_skipped(&c) {
            let ghost before = queries@;
            queries.push(string_from_chars(c.as_slice()));
            assert(strings_view(queries@) =~= strings_view(before).push(c@));
        }
        k = k + 1;
    }
    if queries.len() == 0 {
        Err(WorkloadError::NoQueries)
    } else {
        Ok(queries)
    }
}

/// The comma-separated fields of an update line, trimmed.
pub open spec fn update_parts(c: Seq<char>) -> Seq<Seq<char>> {
    split_at_char(c, ',').map_values(|p: Seq<char>| trim(p))
}

/// An update line is three non-empty fields.
pub open spec fn valid_update(parts: Seq<Seq<char>>) -> bool {
    parts.len() == 3 && forall|i: int| 0 <= i < 3 ==> (#[trigger] parts[i]).len() > 0
}

/// The updates of the first `k` lines, or the number (from 1) of the first
/// line that carries something but is no valid update.
pub open spec fn updates_upto(lines: Seq<Seq<char>>, k: int) -> Result<Seq<(Seq<char>, Seq<char>, Seq<char>)>, int>
    decreases k,
{
    if k <= 0 {
        Ok(Seq::empty())
    } else {
        match updates_upto(lines, k - 1) {
            Err(n) => Err(n),
            Ok(us) => {
                let c = clean_line(lines[k - 1]);
                if skipped_line(c) {
                    Ok(us)
                } else if valid_update(update_parts(c)) {
                    Ok(us.push((update_parts(c)[0], update_parts(c)[1], update_parts(c)[2])))
                } else {
                    Err(k)
                }
            },
        }
    }
}

pub open spec fn update_view(u: UpdateRecord) -> (Seq<char>, Seq<Seq<char>>, Seq<Seq<char>>) {
    (u.fid@, strings_view(u.old_keywords@), strings_view(u.new_keywords@))
}

/// Trimmed comma-separated fields, empty ones kept.
fn parts_of(c: &Vec<char>) -> (r: Vec<Vec<char>>)
    ensures
        r@.map_values(|p: Vec<char>| p@) == update_parts(c@),
{
    let pieces = split_vec(c, ',');
    let ghost ps = split_at_char(c@, ',');
    let mut r: Vec<Vec<char>> = Vec::new();
    let mut k: usize = 0;
    while k < pieces.len()
        invariant
            k <= pieces@.len(),
            pieces@.map_values(|p: Vec<char>| p@) == ps,
            r@.map_values(|p: Vec<char>| p@) == ps.take(k as int).map_values(|p: Seq<char>| trim(p)),
        decreases pieces@.len() - k,
    {
        assert(pieces@[k as int]@ == ps[k as int]);
        let piece = &pieces[k];
        let t = trimmed_range(piece, 0, piece.len());
        assert(piece@.subrange(0, piece@.len() as int) =~= piece@);
        let ghost before = r@.map_values(|p: Vec<char>| p@);
        let ghost tv = t@;
        r.push(t);
        assert(ps.take(k + 1).map_values(|p: Seq<char>| trim(p)) =~= ps.take(k as int).map_values(
            |p: Seq<char>| trim(p),
        ).push(trim(ps[k as int])));
        assert(r@.map_values(|p: Vec<char>| p@) =~= before.push(tv));
        k = k + 1;
    }
    assert(ps.take(pieces@.len() as int) =~= ps);
    r
}

/// Reads updates: each line that carries something must be
/// `fid,old_keyword,new_keyword` (three non-empty fields) and gives one
/// update with one keyword on each side; refused at the first line that is
/// not, or when there is no update.
pub fn parse_update_workload(content: &str) -> (r: Result<Vec<UpdateRecord>, WorkloadError>)
    ensures
        match updates_upto(text_lines(content@), text_lines(content@).len() as int) {
            Err(n) => r == Err::<Vec<UpdateRecord>, WorkloadError>(WorkloadError::InvalidUpdate(n as usize)),
            Ok(us) => match r {
                Ok(v) => us.len() > 0 && v@.len() == us.len() && forall|i: int|
                    0 <= i < us.len() ==> #[trigger] update_view(v@[i]) == (
                        us[i].0,
                        seq![us[i].1],
                        seq![us[i].2],
                    ),
                Err(e) => us.len() == 0 && e == WorkloadError::NoUpdates,
            },
        },
{
    let lines = lines_of(content);
    let ghost ls = text_lines(content@);
    let mut updates: Vec<UpdateRecord> = Vec::new();
    let mut k: usize = 0;
    while k < lines.len()
        invariant
            k <= lines@.len(),
            ls == text_lines(content@),
            lines@.map_values(|p: Vec<char>| p@) == ls,
            updates_upto(ls, k as int) matches Ok(us) && updates@.len() == us.len() && forall|i: int|
                0 <= i < us.len() ==> #[trigger] update_view(updates@[i]) == (
                    us[i].0,
                    seq![us[i].1],
                    seq![us[i].2],
                ),
        decreases lines@.len() - k,
    {
        assert(lines@[k as int]@ == ls[k as int]);
        let c = clean(&lines[k]);
        if !is_skipped(&c) {
            let parts = parts_of(&c);
            let ghost pv = update_parts(c@);
            assert(parts@.len() == pv.len());
            if parts.len() != 3 || parts[0].len() == 0 || parts[1].len() == 0 || parts[2].len() == 0 {
                proof {
                    if pv.len() == 3 {
                        assert(parts@[0]@ == pv[0] && parts@[1]@ == pv[1] && parts@[2]@ == pv[2]);
                    }
                    assert(!valid_update(pv));
                    assert(clean_line(ls[k as int]) == c@);
                    assert(updates_upto(ls, k + 1) == Err::<Seq<(Seq<char>, Seq<char>, Seq<char>)>, int>(k + 1));
                    lemma_updates_err_stays(ls, k + 1, ls.len() as int);
                    assert(ls == text_lines(content@));
                    assert(updates_upto(text_lines(content@), text_lines(content@).len() as int)
                        == Err::<Seq<(Seq<char>, Seq<char>, Seq<char>)>, int>(k + 1));
                }
                let e = WorkloadError::InvalidUpdate(k + 1);
                assert(e == WorkloadError::InvalidUpdate(((k + 1) as int) as usize));
                return Err(e);
            }
            assert(parts@[0]@ == pv[0] && parts@[1]@ == pv[1] && parts@[2]@ == pv[2]);
            let fid = string_from_chars(parts[0].as_slice());
            let old_kw = string_from_chars(parts[1].as_slice());
            let new_kw = string_from_chars(parts[2].as_slice());
            let mut olds: Vec<String> = Vec::new();
            olds.push(old_kw);
            let mut news: Vec<String> = Vec::new();
            news.push(new_kw);
            assert(strings_view(olds@) =~= seq![pv[1]]);
            assert(strings_view(news@) =~= seq![pv[2]]);
            updates.push(UpdateRecord { fid, old_keywords: olds, new_keywords: news });
        }
        k = k + 1;
    }
    if updates.len() == 0 {
        Err(WorkloadError::NoUpdates)
    } else {
        Ok(updates)
    }
}

proof fn lemma_updates_err_stays(lines: Seq<Seq<char>>, k: int, m: int)
    requires
        1 <= k <= m,
        updates_upto(lines, k) == Err::<Seq<(Seq<char>, Seq<char>, Seq<char>)>, int>(k),
    ensures
        updates_upto(lines, m) == Err::<Seq<(Seq<char>, Seq<char>, Seq<char>)>, int>(k),
    decreases m - k,
{
    if k < m {
        lemma_updates_err_stays(lines, k, m - 1);
    }
}

/// The number of different keywords of a record.
pub open spec fn distinct_keyword_count(keywords: Seq<String>) -> nat {
    string_set(keywords).len()
}

/// The keyword pairs of an upload: each record's different keywords,
/// counted over all records.
pub open spec fn keyword_pairs_spec(records: Seq<InputRecord>) -> nat
    decreases records.len(),
{
    if records.len() == 0 {
        0
    } else {
        keyword_pairs_spec(records.drop_last()) + distinct_keyword_count(records.last().keywords@)
    }
}

pub(crate) proof fn lemma_distinct_set_len(v: Seq<String>)
    requires
        distinct_strings(v),
    ensures
        string_set(v).len() == v.len(),
        string_set(v).finite(),
{
    let views = v.map_values(|s: String| s@);
    assert(string_set(v) =~= views.to_set()) by {
        assert forall|x: Seq<char>| string_set(v).contains(x) implies views.to_set().contains(x) by {
            let i = choose|i: int| 0 <= i < v.len() && v[i]@ == x;
            assert(views[i] == x);
        }
        assert forall|x: Seq<char>| views.to_set().contains(x) implies string_set(v).contains(x) by {
            assert(views.contains(x));
            let i = choose|i: int| 0 <= i < views.len() && views[i] == x;
            assert(v[i]@ == x);
        }
    }
    assert(views.no_duplicates());
    views.unique_seq_to_set();
}

/// The number of different keywords of a record.
pub fn record_keyword_count(keywords: &Vec<String>) -> (n: usize)
    ensures
        n == distinct_keyword_count(keywords@),
{
    let unique = dedup_strings(keywords);
    proof {
        lemma_distinct_set_len(unique@);
    }
    unique.len()
}

/// The keyword pairs of an upload, where their number fits a `usize`.
pub fn total_keyword_pairs(records: &Vec<InputRecord>) -> (n: usize)
    requires
        keyword_pairs_spec(records@) <= usize::MAX,
    ensures
        n == keyword_pairs_spec(records@),
{
    let mut total: usize = 0;
    let mut i: usize = 0;
    while i < records.len()
        invariant
            i <= records@.len(),
            keyword_pairs_spec(records@) <= usize::MAX,
            total == keyword_pairs_spec(records@.take(i as int)),
        decreases records@.len() - i,
    {
        assert(records@.take(i + 1).drop_last() =~= records@.take(i as int));
        proof {
            lemma_pairs_prefix(records@, i + 1);
        }
        total = total + record_keyword_count(&records[i].keywords);
        i = i + 1;
    }
    assert(records@.take(records@.len() as int) =~= records@);
    total
}

proof fn lemma_pairs_prefix(records: Seq<InputRecord>, k: int)
    requires
        0 <= k <= records.len(),
    ensures
        keyword_pairs_spec(records.take(k)) <= keyword_pairs_spec(records),
    decreases records.len() - k,
{
    if k < records.len() {
        lemma_pairs_prefix(records, k + 1);
        assert(records.take(k + 1).drop_last() =~= records.take(k));
    } else {
        assert(records.take(k) =~= records);
    }
}

/// The keyword pairs of a batch of updates: each update's different
/// keywords, those it loses and those it gains together, counted over all
/// updates.
pub open spec fn update_pairs_spec(updates: Seq<UpdateRecord>) -> nat
    decreases updates.len(),
{
    if updates.len() == 0 {
        0
    } else {
        let u = updates.last();
        update_pairs_spec(updates.drop_last()) + string_set(u.old_keywords@).union(string_set(u.new_keywords@)).len()
    }
}

/// The number of different keywords an update touches.
pub fn update_keyword_count(old_keywords: &Vec<String>, new_keywords: &Vec<String>) -> (n: usize)
    ensures
        n == string_set(old_keywords@).union(string_set(new_keywords@)).len(),
{
    let a = dedup_strings(old_keywords);
    let b = dedup_strings(new_keywords);
    let u = union_strings(&a, &b);
    proof {
        lemma_distinct_set_len(u@);
    }
    u.len()
}

/// The keyword pairs of a batch of updates, where their number fits a
/// `usize`.
pub fn total_update_keyword_pairs(updates: &Vec<UpdateRecord>) -> (n: usize)
    requires
        update_pairs_spec(updates@) <= usize::MAX,
    ensures
        n == update_pairs_spec(updates@),
{
    let mut total: usize = 0;
    let mut i: usize = 0;
    while i < updates.len()
        invariant
            i <= updates@.len(),
            update_pairs_spec(updates@) <= usize::MAX,
            total == update_pairs_spec(updates@.take(i as int)),
        decreases updates@.len() - i,
    {
        assert(updates@.take(i + 1).drop_last() =~= updates@.take(i as int));
        proof {
            lemma_update_pairs_prefix(updates@, i + 1);
        }
        total = total + update_keyword_count(&updates[i].old_keywords, &updates[i].new_keywords);
        i = i + 1;
    }
    assert(updates@.take(updates@.len() as int) =~= updates@);
    total
}

proof fn lemma_update_pairs_prefix(updates: Seq<UpdateRecord>, k: int)
    requires
        0 <= k <= updates.len(),
    ensures
        update_pairs_spec(updates.take(k)) <= update_pairs_spec(updates),
    decreases updates.len() - k,
{
    if k < updates.len() {
        lemma_update_pairs_prefix(updates, k + 1);
        assert(updates.take(k + 1).drop_last() =~= updates.take(k));
    } else {
        assert(updates.take(k) =~= updates);
    }
}

/// Items in batches of `k`, in order; the last batch may be shorter.
pub open spec fn chunks_spec<T>(s: Seq<T>, k: nat) -> Seq<Seq<T>>
    decreases s.len(),
{
    if s.len() == 0 || k == 0 {
        Seq::empty()
    } else if s.len() <= k {
        seq![s]
    } else {
        seq![s.take(k as int)] + chunks_spec(s.skip(k as int), k)
    }
}

/// The records in batches of `batch_size` (one when it is zero), in order;
/// the last batch may be shorter.
pub fn upload_batches(records: Vec<InputRecord>, batch_size: usize) -> (r: Vec<Vec<InputRecord>>)
    ensures
        r@.map_values(|b: Vec<InputRecord>| b@) == chunks_spec(records@, if batch_size == 0 { 1 } else { batch_size as nat }),
{
    let k: usize = if batch_size == 0 { 1 } else { batch_size };
    let ghost all = records@;
    let mut out: Vec<Vec<InputRecord>> = Vec::new();
    let mut rest = records;
    while rest.len() > k
        invariant
            k > 0,
            out@.map_values(|b: Vec<InputRecord>| b@) + chunks_spec(rest@, k as nat) == chunks_spec(all, k as nat),
        decreases rest@.len(),
    {
        let ghost before = out@.map_values(|b: Vec<InputRecord>| b@);
        let ghost r0 = rest@;
        let tail = rest.split_off(k);
        out.push(rest);
        rest = tail;
        proof {
            assert(r0.take(k as int) =~= r0.subrange(0, k as int));
            assert(r0.skip(k as int) =~= r0.subrange(k as int, r0.len() as int));
            assert(out@.map_values(|b: Vec<InputRecord>| b@) =~= before.push(r0.take(k as int)));
            assert(before + chunks_spec(r0, k as nat) =~= out@.map_values(|b: Vec<InputRecord>| b@) + chunks_spec(
                rest@,
                k as nat,
            ));
        }
    }
    if rest.len() > 0 {
        let ghost before = out@.map_values(|b: Vec<InputRecord>| b@);
        let ghost r0 = rest@;
        out.push(rest);
        assert(out@.map_values(|b: Vec<InputRecord>| b@) =~= before + chunks_spec(r0, k as nat));
    } else {
        assert(out@.map_values(|b: Vec<InputRecord>| b@) + chunks_spec(rest@, k as nat) =~= out@.map_values(
            |b: Vec<InputRecord>| b@,
        ));
    }
    out
}

} // verus!
