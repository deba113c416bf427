//! Rendering of web search results. The search request is the caller's.

use vstd::prelude::*;
use vstd::string::*;
use crate::text::{decimal, push_decimal};

verus! {

/// Where the search engine is and how many results to show.
pub struct SearchConfig {
    num_results: usize,
    url: String,
}

impl SearchConfig {
    pub closed spec fn spec_num_results(&self) -> usize {
        self.num_results
    }

    pub closed spec fn spec_url(&self) -> Seq<char> {
        self.url@
    }

    /// Most results shown.
    pub fn num_results(&self) -> (n: usize)
        ensures
            n == self.spec_num_results(),
    {
        self.num_results
    }

    /// Base URL of the search engine.
    pub fn url(&self) -> (u: &str)
        ensures
            u@ == self.spec_url(),
    {
        self.url.as_str()
    }
}

/// Results shown when the caller asks for no number.
pub const DEFAULT_NUM_RESULTS: usize = 5;

/// Where the search engine is when no address is configured.
pub const DEFAULT_SEARCH_URL: &'static str = "http://172.17.0.1:8888";

impl SearchConfig {
    /// A configuration with the engine at `url` (the configured address,
    /// if any, else `DEFAULT_SEARCH_URL`) showing `num_results` results
    /// (`DEFAULT_NUM_RESULTS` when not given).
    pub fn new(url: Option<String>, num_results: Option<usize>) -> (c: Self)
        ensures
            c.spec_url() == match url {
                Some(u) => u@,
                None => DEFAULT_SEARCH_URL@,
            },
            c.spec_num_results() == match num_results {
                Some(n) => n,
                None => DEFAULT_NUM_RESULTS,
            },
    {
        let url = match url {
            Some(u) => u,
            None => {
                let mut u = String::new();
                u.append(DEFAULT_SEARCH_URL);
                u
            },
        };
        let num_results = match num_results {
            Some(n) => n,
            None => DEFAULT_NUM_RESULTS,
        };
        SearchConfig { num_results, url }
    }
}

impl Default for SearchConfig {
    /// Five results from the engine at `DEFAULT_SEARCH_URL`.
    fn default() -> (c: Self)
        ensures
            c.spec_num_results() == DEFAULT_NUM_RESULTS,
            c.spec_url() == DEFAULT_SEARCH_URL@,
    {
        SearchConfig::new(None, None)
    }
}

/// One search result.
pub struct SearchHit {
    pub title: String,
    pub content: String,
    pub url: String,
}

/// How result number `i` (0-based) is shown.
pub open spec fn result_text(r: SearchHit, i: nat) -> Seq<char> {
    decimal(i + 1) + ". "@ + r.title@ + "\n   "@ + r.content@ + "\n   "@ + r.url@
}

/// Result `i` (0-based), numbered from 1, with its snippet and URL indented.
pub fn format_result(r: &SearchHit, i: usize) -> (s: String)
    requires
        i < usize::MAX,
    ensures
        s@ == result_text(*r, i as nat),
{
    let mut s = String::new();
    push_decimal(&mut s, i + 1);
    s.append(". ");
    s.append(r.title.as_str());
    s.append("\n   ");
    s.append(r.content.as_str());
    s.append("\n   ");
    s.append(r.url.as_str());
    s
}

/// The first `n` results shown, separated by blank lines.
pub open spec fn results_text(rs: Seq<SearchHit>, n: int) -> Seq<char>
    decreases n,
{
    if n <= 0 {
        Seq::empty()
    } else if n == 1 {
        result_text(rs[0], 0)
    } else {
        results_text(rs, n - 1) + "\n\n"@ + result_text(rs[n - 1], (n - 1) as nat)
    }
}

/// The first `config.num_results()` results, numbered, separated by blank
/// lines.
pub fn format_results(results: &Vec<SearchHit>, config: &SearchConfig) -> (s: String)
    ensures
        s@ == results_text(
            results@,
            if results@.len() < config.spec_num_results() { results@.len() as int } else {
                config.spec_num_results() as int
            },
        ),
{
    let n = if results.len() < config.num_results { results.len() } else { config.num_results };
    let mut s = String::new();
    let mut i: usize = 0;
    while i < n
        invariant
            i <= n <= results@.len(),
            s@ == results_text(results@, i as int),
        decreases n - i,
    {
        if i > 0 {
            s.append("\n\n");
        }
        let r = format_result(&results[i], i);
        s.append(r.as_str());
        i = i + 1;
    }
    s
}

} // verus!
