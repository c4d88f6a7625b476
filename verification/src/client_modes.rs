//! The client's run settings: what it is asked to do, how it labels a run,
//! and the batch sizes each ADS mode allows.
use vstd::prelude::*;
use std::time::Duration;
use crate::text::{lowercase_spec, push_str, str_eq, string_from_chars, to_lowercase};
use crate::types::{result_view, AdsMode, SetProofMode};
use crate::boolean_expr::{display, keywords_of, parse_boolean_expr, parse_spec, BooleanExpr, Expr};
use crate::epring::{keyword_hex_spec, EPRing};
use crate::proofs::{
    accumulator_set_magic, bytes_start_with, is_accumulator_set_operation_proof,
    is_polynomial_intersection_proof, polynomial_magic,
};
use vstd::string::StringSliceAdditionalSpecFns;

verus! {

/// Upload batch size the MPT storage accepts.
pub const FIXED_UPLOAD_BATCH_SIZE_FOR_MPT: usize = 3;

/// Upload batch size the MEST storage accepts.
pub const FIXED_UPLOAD_BATCH_SIZE_FOR_MEST: usize = 1;

/// What one client run does.
#[derive(Debug, Clone, Copy, PartialEq, Eq, Structural)]
pub enum OperationMode {
    Upload,
    UploadSequential,
    Query,
    Update,
    UploadAndQuery,
    Reset,
}

/// The operation mode an already lower-cased name stands for.
pub open spec fn operation_mode_of(lower: Seq<char>) -> Result<OperationMode, Seq<char>> {
    if lower == "upload-sequential"@ || lower == "load-sequential"@ {
        Ok(OperationMode::UploadSequential)
    } else if lower == "upload"@ || lower == "load"@ {
        Ok(OperationMode::Upload)
    } else if lower == "query"@ {
        Ok(OperationMode::Query)
    } else if lower == "update"@ {
        Ok(OperationMode::Update)
    } else if lower == "upload-and-query"@ || lower == "load-and-query"@ {
        Ok(OperationMode::UploadAndQuery)
    } else if lower == "reset"@ || lower == "clear"@ {
        Ok(OperationMode::Reset)
    } else {
        Err(
            "Unknown operation mode: "@ + lower
                + ". Expected upload|upload-sequential|query|update|upload-and-query|reset"@,
        )
    }
}

pub open spec fn operation_mode_name(m: OperationMode) -> Seq<char> {
    match m {
        OperationMode::UploadSequential => "upload-sequential"@,
        OperationMode::Upload => "upload"@,
        OperationMode::Query => "query"@,
        OperationMode::Update => "update"@,
        OperationMode::UploadAndQuery => "upload-and-query"@,
        OperationMode::Reset => "reset"@,
    }
}

/// The operation mode named by a lower-case string.
pub fn operation_mode_from_lowercase(lower: &str) -> (r: Result<OperationMode, String>)
    ensures
        result_view(r) == operation_mode_of(lower@),
{
    if str_eq(lower, "upload-sequential") || str_eq(lower, "load-sequential") {
        Ok(OperationMode::UploadSequential)
    } else if str_eq(lower, "upload") || str_eq(lower, "load") {
        Ok(OperationMode::Upload)
    } else if str_eq(lower, "query") {
        Ok(OperationMode::Query)
    } else if str_eq(lower, "update") {
        Ok(OperationMode::Update)
    } else if str_eq(lower, "upload-and-query") || str_eq(lower, "load-and-query") {
        Ok(OperationMode::UploadAndQuery)
    } else if str_eq(lower, "reset") || str_eq(lower, "clear") {
        Ok(OperationMode::Reset)
    } else {
        let mut cs: Vec<char> = Vec::new();
        push_str(&mut cs, "Unknown operation mode: ");
        push_str(&mut cs, lower);
        push_str(
            &mut cs,
            ". Expected upload|upload-sequential|query|update|upload-and-query|reset",
        );
        Err(string_from_chars(cs.as_slice()))
    }
}

impl OperationMode {
    /// The operation mode a command-line argument names, in any case.
    pub fn from_arg(value: &str) -> (r: Result<OperationMode, String>)
        ensures
            result_view(r) == operation_mode_of(lowercase_spec(value@)),
    {
        let lower = to_lowercase(value);
        operation_mode_from_lowercase(lower.as_str())
    }
}

/// The name under which a run reports its operation mode.
pub fn describe_mode(mode: &OperationMode) -> (s: &'static str)
    ensures
        s@ == operation_mode_name(*mode),
{
    match mode {
        OperationMode::UploadSequential => "upload-sequential",
        OperationMode::Upload => "upload",
        OperationMode::Query => "query",
        OperationMode::Update => "update",
        OperationMode::UploadAndQuery => "upload-and-query",
        OperationMode::Reset => "reset",
    }
}

/// What a client run does, in order: upload the records (in batches, or
/// one record per request), apply the updates, run the queries, reset the
/// system.
#[derive(Debug, Clone, Copy, PartialEq, Eq, Structural)]
pub struct RunPlan {
    pub upload: bool,
    pub batch_add: bool,
    pub update: bool,
    pub query: bool,
    pub reset: bool,
}

/// The phases of a run: uploads in the upload modes, in batches unless the
/// mode is sequential or the ADS is MPT; updates in the update mode;
/// queries in the query modes; a reset in the reset mode.
pub fn run_plan(mode: OperationMode, ads_mode: AdsMode) -> (p: RunPlan)
    ensures
        p.upload == (mode is Upload || mode is UploadSequential || mode is UploadAndQuery),
        p.batch_add == ((mode is Upload || mode is UploadAndQuery) && !(ads_mode is Mpt)),
        p.update == (mode is Update),
        p.query == (mode is Query || mode is UploadAndQuery),
        p.reset == (mode is Reset),
{
    let upload = match mode {
        OperationMode::Upload | OperationMode::UploadSequential | OperationMode::UploadAndQuery => true,
        _ => false,
    };
    let batch_mode = match mode {
        OperationMode::Upload | OperationMode::UploadAndQuery => true,
        _ => false,
    };
    let not_mpt = match ads_mode {
        AdsMode::Mpt => false,
        _ => true,
    };
    let query = match mode {
        OperationMode::Query | OperationMode::UploadAndQuery => true,
        _ => false,
    };
    RunPlan {
        upload,
        batch_add: batch_mode && not_mpt,
        update: mode == OperationMode::Update,
        query,
        reset: mode == OperationMode::Reset,
    }
}

/// The upload batch size a run uses: fixed for MPT and MEST, otherwise the
/// configured size (at least one).
pub fn effective_upload_batch_size(ads_mode: AdsMode, configured_batch_size: usize) -> (n: usize)
    ensures
        n == match ads_mode {
            AdsMode::Mpt => FIXED_UPLOAD_BATCH_SIZE_FOR_MPT,
            AdsMode::Mest => FIXED_UPLOAD_BATCH_SIZE_FOR_MEST,
            _ => if configured_batch_size >= 1 {
                configured_batch_size
            } else {
                1
            },
        },
{
    match ads_mode {
        AdsMode::Mpt => FIXED_UPLOAD_BATCH_SIZE_FOR_MPT,
        AdsMode::Mest => FIXED_UPLOAD_BATCH_SIZE_FOR_MEST,
        AdsMode::AccTrie | AdsMode::AccTree => if configured_batch_size >= 1 {
            configured_batch_size
        } else {
            1
        },
    }
}

/// What a query for one keyword measured.
#[derive(Debug)]
pub struct QueryKeywordMetrics {
    pub result_count: usize,
    pub proof_size_bytes: usize,
    pub verification_latency: Duration,
    pub manager_proof_aggregation_latency: Duration,
    pub manager_set_operation_proof_generation_latency: Duration,
    pub route_mode: String,
    pub persistence_mode: String,
}

/// The workload a run belongs to, sent along with each request.
#[derive(Debug, Clone)]
pub struct RunMetadata {
    pub dataset: String,
    pub concurrency: u32,
    pub total_uploads: u32,
    pub total_queries: u32,
    pub total_updates: u32,
}

impl RunMetadata {
    pub fn new(
        dataset: String,
        concurrency: u32,
        total_uploads: u32,
        total_queries: u32,
        total_updates: u32,
    ) -> (m: Self)
        ensures
            m.dataset == dataset,
            m.concurrency == concurrency,
            m.total_uploads == total_uploads,
            m.total_queries == total_queries,
            m.total_updates == total_updates,
    {
        RunMetadata { dataset, concurrency, total_uploads, total_queries, total_updates }
    }
}

/// What a keyword travels as: the hex text of its digest.
pub open spec fn encoded_keyword(k: Seq<char>) -> Seq<char> {
    keyword_hex_spec(vstd::utf8::encode_utf8(k))
}

/// The expression with each keyword replaced by what it travels as.
pub open spec fn encode_expr(e: Expr) -> Expr
    decreases e,
{
    match e {
        Expr::Keyword(k) => Expr::Keyword(encoded_keyword(k)),
        Expr::And(l, r) => Expr::And(Box::new(encode_expr(*l)), Box::new(encode_expr(*r))),
        Expr::Or(l, r) => Expr::Or(Box::new(encode_expr(*l)), Box::new(encode_expr(*r))),
        Expr::Not(x) => Expr::Not(Box::new(encode_expr(*x))),
    }
}

fn encode_boolean_expr(expr: &BooleanExpr) -> (r: BooleanExpr)
    ensures
        r@ == encode_expr(expr@),
    decreases expr,
{
    match expr {
        BooleanExpr::Keyword(k) => BooleanExpr::Keyword(EPRing::keyword_to_hex(k.as_str())),
        BooleanExpr::And(l, r) => BooleanExpr::And(
            Box::new(encode_boolean_expr(l)),
            Box::new(encode_boolean_expr(r)),
        ),
        BooleanExpr::Or(l, r) => BooleanExpr::Or(
            Box::new(encode_boolean_expr(l)),
            Box::new(encode_boolean_expr(r)),
        ),
        BooleanExpr::Not(x) => BooleanExpr::Not(Box::new(encode_boolean_expr(x))),
    }
}

/// A client's settings: where the manager listens, the ADS its storage
/// keeps, and the kind of set proof it expects back; the connection to the
/// manager is kept by the caller.
pub struct Client {
    manager_addr: String,
    ads_mode: AdsMode,
    set_proof_mode: SetProofMode,
}

impl Client {
    pub closed spec fn addr(&self) -> Seq<char> {
        self.manager_addr@
    }

    pub closed spec fn mode(&self) -> AdsMode {
        self.ads_mode
    }

    pub closed spec fn proof_mode(&self) -> SetProofMode {
        self.set_proof_mode
    }

    pub fn new(manager_addr: String, ads_mode: AdsMode, set_proof_mode: SetProofMode) -> (c: Self)
        ensures
            c.addr() == manager_addr@,
            c.mode() == ads_mode,
            c.proof_mode() == set_proof_mode,
    {
        Client { manager_addr, ads_mode, set_proof_mode }
    }

    pub fn manager_addr(&self) -> (r: &str)
        ensures
            r@ == self.addr(),
    {
        self.manager_addr.as_str()
    }

    pub fn ads_mode(&self) -> (r: AdsMode)
        ensures
            r == self.mode(),
    {
        self.ads_mode
    }

    /// Whether a set proof carries the mark of the kind this client expects.
    pub fn verify_expected_set_proof_mode(&self, proof: &[u8]) -> (r: bool)
        ensures
            r == match self.proof_mode() {
                SetProofMode::Polynomial => bytes_start_with(proof@, polynomial_magic()),
                SetProofMode::Accumulator => bytes_start_with(proof@, accumulator_set_magic()),
            },
    {
        match self.set_proof_mode {
            SetProofMode::Polynomial => is_polynomial_intersection_proof(proof),
            SetProofMode::Accumulator => is_accumulator_set_operation_proof(proof),
        }
    }

    /// The keywords as they travel, in the same order.
    pub fn encode_upload_keywords(&self, keywords: Vec<String>) -> (r: Vec<String>)
        ensures
            r@.len() == keywords@.len(),
            forall|i: int| 0 <= i < keywords@.len() ==> #[trigger] r@[i]@ == encoded_keyword(keywords@[i]@),
    {
        let mut r: Vec<String> = Vec::new();
        let mut i: usize = 0;
        while i < keywords.len()
            invariant
                i <= keywords@.len(),
                r@.len() == i,
                forall|j: int| 0 <= j < i ==> #[trigger] r@[j]@ == encoded_keyword(keywords@[j]@),
            decreases keywords@.len() - i,
        {
            let k = keywords[i].as_str();
            let h = EPRing::keyword_to_hex(k);
            r.push(h);
            i = i + 1;
        }
        r
    }

    /// The keywords of an update as they travel, as for an upload.
    pub fn encode_update_keywords(&self, keywords: Vec<String>) -> (r: Vec<String>)
        ensures
            r@.len() == keywords@.len(),
            forall|i: int| 0 <= i < keywords@.len() ==> #[trigger] r@[i]@ == encoded_keyword(keywords@[i]@),
    {
        self.encode_upload_keywords(keywords)
    }

    /// A query as it travels: parsed, each keyword replaced by its digest's
    /// hex text, and written back out; the parse error otherwise.
    pub fn encode_query_expression(&self, query: &str) -> (r: Result<String, String>)
        ensures
            match parse_spec(query@) {
                Ok(e) => r matches Ok(s) && s@ == display(encode_expr(e)),
                Err(m) => r matches Err(x) && x@ == m,
            },
    {
        match parse_boolean_expr(query) {
            Ok(e) => Ok(encode_boolean_expr(&e).to_string()),
            Err(m) => Err(m),
        }
    }

    /// A parsed query as it travels.
    pub fn encode_boolean_query_expression(&self, expr: &BooleanExpr) -> (s: String)
        ensures
            s@ == display(encode_expr(expr@)),
    {
        encode_boolean_expr(expr).to_string()
    }
}

/// The queries a run sends: each that parses, encoded, with its number of
/// different keywords, in order; and how many did not parse.
pub open spec fn prepared_queries_spec(qs: Seq<String>) -> (Seq<(Seq<char>, nat)>, nat)
    decreases qs.len(),
{
    if qs.len() == 0 {
        (Seq::empty(), 0)
    } else {
        let (p, k) = prepared_queries_spec(qs.drop_last());
        match parse_spec(qs.last()@) {
            Ok(e) => (p.push((display(encode_expr(e)), keywords_of(e).len())), k),
            Err(_) => (p, k + 1),
        }
    }
}

pub open spec fn prepared_view(v: Seq<(String, usize)>) -> Seq<(Seq<char>, nat)> {
    v.map_values(|q: (String, usize)| (q.0@, q.1 as nat))
}

impl Client {
    /// Prepares a run's queries: those that parse, encoded, each with its
    /// number of different keywords; and the number skipped.
    pub fn prepare_queries(&self, queries: &Vec<String>) -> (r: (Vec<(String, usize)>, usize))
        ensures
            prepared_view(r.0@) == prepared_queries_spec(queries@).0,
            r.1 == prepared_queries_spec(queries@).1,
    {
        let mut prepared: Vec<(String, usize)> = Vec::new();
        let mut skipped: usize = 0;
        let mut i: usize = 0;
        while i < queries.len()
            invariant
                i <= queries@.len(),
                skipped <= i,
                prepared_view(prepared@) == prepared_queries_spec(queries@.take(i as int)).0,
                skipped == prepared_queries_spec(queries@.take(i as int)).1,
            decreases queries@.len() - i,
        {
            assert(queries@.take(i + 1).drop_last() =~= queries@.take(i as int));
            assert(queries@.take(i + 1).last() == queries@[i as int]);
            match parse_boolean_expr(queries[i].as_str()) {
                Ok(expr) => {
                    let keywords = expr.get_keywords();
                    proof {
                        crate::workload::lemma_distinct_set_len(keywords@);
                    }
                    let encoded = self.encode_boolean_query_expression(&expr);
                    let ghost before = prepared_view(prepared@);
                    prepared.push((encoded, keywords.len()));
                    assert(prepared_view(prepared@) =~= before.push((display(encode_expr(expr@)), keywords_of(expr@).len())));
                },
                Err(_) => {
                    skipped = skipped + 1;
                },
            }
            i = i + 1;
        }
        assert(queries@.take(queries@.len() as int) =~= queries@);
        (prepared, skipped)
    }
}

/// The tenth of the work done, when it has passed the last one reported:
/// `done * 10 / total` (the product saturating), reported only when above
/// `last`; nothing without work to do.
pub fn progress_bucket(done: usize, total: usize, last: usize) -> (r: Option<usize>)
    ensures
        r == if total == 0 {
            None
        } else {
            let b = (if done * 10 > usize::MAX { usize::MAX as int } else { done * 10 }) / (total as int);
            if b > last {
                Some(b as usize)
            } else {
                None
            }
        },
{
    if total == 0 {
        return None;
    }
    let scaled = match done.checked_mul(10) {
        Some(v) => v,
        None => usize::MAX,
    };
    let bucket = scaled / total;
    if bucket > last {
        Some(bucket)
    } else {
        None
    }
}

} // verus!
