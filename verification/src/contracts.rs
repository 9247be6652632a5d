//! Binding discovery for provable contracts: each proof obligation's
//! property becomes a query term, and a caller-supplied query runner maps
//! every term to the functions that match it.

use vstd::prelude::*;
use crate::text::{debug_quoted, str_debug};

verus! {

/// The parts of a parsed contract that binding discovery reads: the
/// contract's `metadata.version` and the `property` of each proof
/// obligation, in order.
#[derive(Debug, Clone, PartialEq, Eq)]
pub struct ContractSummary {
    /// Contract version.
    pub version: String,
    /// One property text per proof obligation.
    pub properties: Vec<String>,
}

/// The texts of a list of strings.
pub open spec fn texts(v: Seq<String>) -> Seq<Seq<char>> {
    v.map_values(|s: String| s@)
}

impl View for ContractSummary {
    type V = (Seq<char>, Seq<Seq<char>>);

    open spec fn view(&self) -> (Seq<char>, Seq<Seq<char>>) {
        (self.version@, texts(self.properties@))
    }
}

/// One discovered binding: a query term and the function names that the
/// query runner returned for it.
#[derive(Debug, Clone, PartialEq, Eq)]
pub struct Binding {
    /// The obligation's property text.
    pub term: String,
    /// Function names returned for `term`.
    pub matches: Vec<String>,
}

/// Outcome of running the query runner over every obligation of a contract.
#[derive(Debug, Clone, PartialEq, Eq)]
pub struct BindingReport {
    /// Contract version (from `metadata.version`).
    pub contract_version: String,
    /// Number of obligations the contract declared.
    pub obligation_count: usize,
    /// One binding per query term.
    pub bindings: Vec<Binding>,
}

/// Why contract YAML could not be read.
#[derive(Debug, Clone, PartialEq, Eq)]
pub enum ContractLoadError {
    /// The parser refused the text; its message.
    Parse(String),
}

/// What the contract parser makes of YAML text: the version and the
/// obligation properties of the contract, or the parser's error message.
pub uninterp spec fn contract_parse(yaml: Seq<char>) -> Result<(Seq<char>, Seq<Seq<char>>), Seq<char>>;

/// Parses contract YAML with `provable_contracts::schema::parse_contract_str`
/// and keeps the version and the obligation properties, or the error's
/// `Display` text. The contract names the outcome as a function of the
/// text alone and claims nothing more of it.
#[verifier::external_body]
fn parse_contract(yaml: &str) -> (r: Result<ContractSummary, String>)
    ensures
        match r {
            Ok(c) => contract_parse(yaml@) == Ok::<(Seq<char>, Seq<Seq<char>>), Seq<char>>(c@),
            Err(e) => contract_parse(yaml@) == Err::<(Seq<char>, Seq<Seq<char>>), Seq<char>>(e@),
        },
{
    match provable_contracts::schema::parse_contract_str(yaml) {
        Ok(c) => Ok(
            ContractSummary {
                version: c.metadata.version,
                properties: c.proof_obligations.into_iter().map(|o| o.property).collect(),
            },
        ),
        Err(e) => Err(e.to_string()),
    }
}

/// What `parse_contract_yaml` returns for a parser outcome.
pub open spec fn load_result(outcome: Result<(Seq<char>, Seq<Seq<char>>), Seq<char>>, r: Result<
    ContractSummary,
    ContractLoadError,
>) -> bool {
    match outcome {
        Ok(c) => r matches Ok(s) && s@ == c,
        Err(e) => r matches Err(ContractLoadError::Parse(m)) && m@ == e,
    }
}

/// What loading makes of the parser's outcome: the contract as it is, or
/// its message as a parse error.
pub fn load_from_outcome(outcome: Result<ContractSummary, String>) -> (r: Result<ContractSummary, ContractLoadError>)
    ensures
        match outcome {
            Ok(c) => r matches Ok(s) && s@ == c@,
            Err(e) => r matches Err(ContractLoadError::Parse(m)) && m@ == e@,
        },
{
    match outcome {
        Ok(c) => Ok(c),
        Err(e) => Err(ContractLoadError::Parse(e)),
    }
}

/// Parses contract YAML text, keeping what binding discovery reads.
pub fn parse_contract_yaml(yaml: &str) -> (r: Result<ContractSummary, ContractLoadError>)
    ensures
        load_result(contract_parse(yaml@), r),
{
    load_from_outcome(parse_contract(yaml))
}

/// The sentence that describes a load error.
pub open spec fn load_error_message(e: ContractLoadError) -> Seq<char> {
    match e {
        ContractLoadError::Parse(m) => "parse contract YAML: "@ + m@,
    }
}

impl ContractLoadError {
    /// The error as a sentence.
    pub fn message(&self) -> (r: String)
        ensures
            r@ == load_error_message(*self),
    {
        match self {
            ContractLoadError::Parse(m) => {
                let mut r = String::from_str("parse contract YAML: ");
                r.append(m.as_str());
                r
            },
        }
    }
}

/// Unicode `White_Space`, the characters that `str::trim` removes.
pub open spec fn is_white_space(c: char) -> bool {
    ||| '\u{9}' <= c <= '\u{d}'
    ||| c == ' '
    ||| c == '\u{85}'
    ||| c == '\u{a0}'
    ||| c == '\u{1680}'
    ||| '\u{2000}' <= c <= '\u{200a}'
    ||| c == '\u{2028}'
    ||| c == '\u{2029}'
    ||| c == '\u{202f}'
    ||| c == '\u{205f}'
    ||| c == '\u{3000}'
}

/// `s` without its leading white space.
pub open spec fn trim_start(s: Seq<char>) -> Seq<char>
    decreases s.len(),
{
    if s.len() > 0 && is_white_space(s[0]) {
        trim_start(s.drop_first())
    } else {
        s
    }
}

/// `s` without its trailing white space.
pub open spec fn trim_end(s: Seq<char>) -> Seq<char>
    decreases s.len(),
{
    if s.len() > 0 && is_white_space(s.last()) {
        trim_end(s.drop_last())
    } else {
        s
    }
}

/// `s` without leading and trailing white space.
pub open spec fn trimmed(s: Seq<char>) -> Seq<char> {
    trim_end(trim_start(s))
}

/// Whether `c` is white space.
fn white_space(c: char) -> (r: bool)
    ensures
        r == is_white_space(c),
{
    ('\u{9}' <= c && c <= '\u{d}') || c == ' ' || c == '\u{85}' || c == '\u{a0}' || c == '\u{1680}'
        || ('\u{2000}' <= c && c <= '\u{200a}') || c == '\u{2028}' || c == '\u{2029}' || c
        == '\u{202f}' || c == '\u{205f}' || c == '\u{3000}'
}

/// Dropping white space from the front of `s.subrange(i, ..)` one at a time
/// ends where trimming `s` does.
proof fn lemma_trim_start_step(s: Seq<char>, i: int)
    requires
        0 <= i < s.len(),
        is_white_space(s[i]),
    ensures
        trim_start(s.subrange(i, s.len() as int)) == trim_start(s.subrange(i + 1, s.len() as int)),
{
    assert(s.subrange(i, s.len() as int).drop_first() =~= s.subrange(i + 1, s.len() as int));
}

/// Dropping white space from the back one at a time ends where trimming
/// does.
proof fn lemma_trim_end_step(s: Seq<char>, j: int)
    requires
        0 < j <= s.len(),
        is_white_space(s[j - 1]),
    ensures
        trim_end(s.subrange(0, j)) == trim_end(s.subrange(0, j - 1)),
{
    assert(s.subrange(0, j).drop_last() =~= s.subrange(0, j - 1));
}

/// `s` without leading and trailing white space, as `str::trim` gives it.
fn trim(s: &str) -> (r: String)
    ensures
        r@ == trimmed(s@),
{
    let n = s.unicode_len();
    let ghost v = s@;
    let mut i: usize = 0;
    proof {
        assert(v.subrange(0, n as int) =~= v);
    }
    while i < n && white_space(s.get_char(i))
        invariant
            v == s@,
            n == v.len(),
            i <= n,
            trim_start(v) == trim_start(v.subrange(i as int, n as int)),
        decreases n - i,
    {
        proof {
            lemma_trim_start_step(v, i as int);
        }
        i = i + 1;
    }
    let ghost rest = v.subrange(i as int, n as int);
    proof {
        if i < n {
            assert(rest[0] == v[i as int]);
        }
        assert(trim_start(v) == rest);
    }
    let mut j: usize = n;
    proof {
        assert(rest.subrange(0, n - i) =~= rest);
    }
    while j > i && white_space(s.get_char(j - 1))
        invariant
            v == s@,
            n == v.len(),
            i <= j <= n,
            rest == v.subrange(i as int, n as int),
            trim_end(rest) == trim_end(rest.subrange(0, j - i)),
        decreases j,
    {
        proof {
            assert(rest[j - i - 1] == v[j - 1]);
            lemma_trim_end_step(rest, j - i);
        }
        j = j - 1;
    }
    proof {
        let kept = rest.subrange(0, j - i);
        if j > i {
            assert(kept.last() == v[j - 1]);
        }
        assert(trim_end(kept) == kept);
        assert(kept =~= v.subrange(i as int, j as int));
    }
    s.substring_char(i, j).to_owned()
}

/// The query terms of a list of properties: each property trimmed, in
/// order, leaving out those that are empty after trimming.
pub open spec fn query_terms(props: Seq<Seq<char>>) -> Seq<Seq<char>>
    decreases props.len(),
{
    if props.len() == 0 {
        Seq::empty()
    } else {
        let t = trimmed(props.last());
        query_terms(props.drop_last()) + if t.len() > 0 {
            seq![t]
        } else {
            Seq::empty()
        }
    }
}

/// One query term per proof obligation: its property with surrounding white
/// space trimmed. Properties that are empty after trimming carry no
/// information and are left out.
pub fn extract_query_terms(contract: &ContractSummary) -> (r: Vec<String>)
    ensures
        texts(r@) == query_terms(contract@.1),
{
    let props = &contract.properties;
    let ghost p = texts(props@);
    let mut r: Vec<String> = Vec::new();
    let mut i: usize = 0;
    while i < props.len()
        invariant
            p == texts(props@),
            p == contract@.1,
            i <= props@.len(),
            texts(r@) == query_terms(p.take(i as int)),
        decreases props@.len() - i,
    {
        let t = trim(props[i].as_str());
        proof {
            assert(p.take(i + 1).drop_last() =~= p.take(i as int));
            assert(p.take(i + 1).last() == props@[i as int]@);
        }
        if !t.as_str().is_empty() {
            r.push(t);
            proof {
                assert(texts(r@) =~= query_terms(p.take(i + 1)));
            }
        } else {
            proof {
                assert(texts(r@) =~= query_terms(p.take(i + 1)));
            }
        }
        i = i + 1;
    }
    proof {
        assert(p.take(props@.len() as int) =~= p);
    }
    r
}

/// Why binding discovery stopped: the query for `term` failed with `cause`.
#[derive(Debug, Clone, PartialEq, Eq)]
pub struct QueryError {
    /// The term whose query failed.
    pub term: String,
    /// The query runner's error.
    pub cause: String,
}

/// The sentence that describes a failed query.
pub open spec fn query_error_message(e: QueryError) -> Seq<char> {
    "query for "@ + str_debug(e.term@) + ": "@ + e.cause@
}

/// The sentence for a failed query, given the term's quoted form.
pub fn query_message(quoted_term: &str, cause: &str) -> (r: String)
    ensures
        r@ == "query for "@ + quoted_term@ + ": "@ + cause@,
{
    let mut r = String::from_str("query for ");
    r.append(quoted_term);
    r.append(": ");
    r.append(cause);
    r
}

impl QueryError {
    /// The error as a sentence, the runner's error last.
    pub fn message(&self) -> (r: String)
        ensures
            r@ == query_error_message(*self),
    {
        let q = debug_quoted(self.term.as_str());
        query_message(q.as_str(), self.cause.as_str())
    }
}

/// The runner `f` may answer `term` with `out`.
pub open spec fn answers<F: Fn(&str) -> Result<Vec<String>, String>>(
    f: F,
    term: Seq<char>,
    out: Result<Vec<String>, String>,
) -> bool {
    exists|t: &str| t@ == term && call_ensures(f, (t,), out)
}

/// The runner `f` may answer `term` with matches.
pub open spec fn answered<F: Fn(&str) -> Result<Vec<String>, String>>(f: F, term: Seq<char>) -> bool {
    exists|out: Vec<String>| #[trigger] answers(f, term, Ok(out))
}

/// The runner `f` may answer each of the first `k` terms with matches.
pub open spec fn answered_before<F: Fn(&str) -> Result<Vec<String>, String>>(
    f: F,
    terms: Seq<Seq<char>>,
    k: int,
) -> bool {
    forall|j: int| 0 <= j < k ==> #[trigger] answered(f, terms[j])
}

/// What binding discovery over `contract` with runner `f` may return: a
/// report with the contract's version and obligation count and, for each
/// query term in order, a binding of the term to what `f` answered for it;
/// or the error that `f` answered for the first term it failed on, with
/// that term, every earlier term having been answered with matches.
pub open spec fn discovery_result<F: Fn(&str) -> Result<Vec<String>, String>>(
    contract: ContractSummary,
    f: F,
    r: Result<BindingReport, QueryError>,
) -> bool {
    let qt = query_terms(contract@.1);
    match r {
        Ok(report) => {
            &&& report.contract_version@ == contract@.0
            &&& report.obligation_count == contract.properties@.len()
            &&& report.bindings@.len() == qt.len()
            &&& forall|i: int|
                0 <= i < report.bindings@.len() ==> (#[trigger] report.bindings@[i]).term@ == qt[i]
                    && answers(f, qt[i], Ok(report.bindings@[i].matches))
        },
        Err(e) => exists|k: int|
            #![trigger qt[k]]
            0 <= k < qt.len() && e.term@ == qt[k] && answers(f, qt[k], Err(e.cause)) && answered_before(
                f,
                qt,
                k,
            ),
    }
}

/// Law: with a runner that never fails, discovery succeeds, with one
/// binding per query term, in order, each carrying its term verbatim and
/// what the runner answered for it, and with the contract's version and
/// obligation count.
pub proof fn lemma_infallible_runner_binds_every_term<F: Fn(&str) -> Result<Vec<String>, String>>(
    contract: ContractSummary,
    f: F,
    r: Result<BindingReport, QueryError>,
)
    requires
        forall|t: &str, out: Result<Vec<String>, String>| call_ensures(f, (t,), out) ==> out is Ok,
        discovery_result(contract, f, r),
    ensures
        r is Ok,
        r matches Ok(report) ==> report.contract_version@ == contract@.0
            && report.obligation_count == contract.properties@.len()
            && report.bindings@.len() == query_terms(contract@.1).len()
            && forall|i: int|
            0 <= i < report.bindings@.len() ==> (#[trigger] report.bindings@[i]).term@ == query_terms(
                contract@.1,
            )[i] && answers(f, query_terms(contract@.1)[i], Ok(report.bindings@[i].matches)),
{
    if let Err(e) = r {
        let qt = query_terms(contract@.1);
        let k = choose|k: int|
            #![trigger qt[k]]
            0 <= k < qt.len() && e.term@ == qt[k] && answers(f, qt[k], Err(e.cause)) && answered_before(
                f,
                qt,
                k,
            );
        let t = choose|t: &str| t@ == qt[k] && call_ensures(f, (t,), Err::<Vec<String>, String>(e.cause));
        assert(call_ensures(f, (t,), Err::<Vec<String>, String>(e.cause)));
    }
}

/// Runs the query runner `f` on every query term, in order, and collects
/// one binding per term. The first error stops the run and is returned
/// with the term it came from.
pub fn discover_bindings_with<F>(contract: &ContractSummary, f: F) -> (r: Result<
    BindingReport,
    QueryError,
>) where F: Fn(&str) -> Result<Vec<String>, String>
    requires
        forall|t: &str| call_requires(f, (t,)),
    ensures
        discovery_result(*contract, f, r),
{
    let terms = extract_query_terms(contract);
    let ghost qt = query_terms(contract@.1);
    let mut bindings: Vec<Binding> = Vec::new();
    let mut i: usize = 0;
    while i < terms.len()
        invariant
            texts(terms@) == qt,
            qt == query_terms(contract@.1),
            forall|t: &str| call_requires(f, (t,)),
            i <= terms@.len(),
            bindings@.len() == i,
            forall|k: int|
                0 <= k < i ==> (#[trigger] bindings@[k]).term@ == qt[k] && answers(
                    f,
                    qt[k],
                    Ok(bindings@[k].matches),
                ),
            answered_before(f, qt, i as int),
        decreases terms@.len() - i,
    {
        let term = terms[i].as_str();
        proof {
            assert(term@ == qt[i as int]);
        }
        match f(term) {
            Ok(matches) => {
                proof {
                    assert(answers(f, qt[i as int], Ok(matches)));
                    assert(answered(f, qt[i as int]));
                    assert forall|j: int| 0 <= j < i + 1 implies #[trigger] answered(f, qt[j]) by {
                        if j < i {
                            assert(answered_before(f, qt, i as int));
                        }
                    }
                    assert(answered_before(f, qt, i + 1));
                }
                bindings.push(Binding { term: terms[i].clone(), matches });
            },
            Err(cause) => {
                let e = QueryError { term: terms[i].clone(), cause };
                proof {
                    assert(texts(terms@)[i as int] == terms@[i as int]@);
                    assert(answers(f, qt[i as int], Err(e.cause)));
                    assert(qt.len() == terms@.len());
                    let k = i as int;
                    assert(0 <= k < qt.len());
                    assert(e.term@ == qt[k]);
                    assert(answers(f, qt[k], Err(e.cause)));
                    assert(answered_before(f, qt, k));
                }
                return Err(e);
            },
        }
        i = i + 1;
    }
    Ok(
        BindingReport {
            contract_version: contract.version.clone(),
            obligation_count: contract.properties.len(),
            bindings,
        },
    )
}

} // verus!
