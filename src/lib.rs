//! A small, typeless, indentation-based configuration language.
//!
//! Text is scanned into tokens, the tokens are parsed into a [`Config`] tree,
//! and a tree may be extended by parsing more text on top of it.  Node text is
//! copied out of the source at parse time, so a tree owns all of its text and
//! outlives the buffers it was parsed from.
use vstd::prelude::*;
use vstd::string::StringSliceAdditionalSpecFns;

pub mod config;
pub mod error;
pub mod laws;
pub mod parser;
pub mod reparse;
pub mod scanner;

pub use config::Config;
pub use error::NcclError;

use config::tree_wf;
use laws::{grows, lemma_parse_extends_seed, lemma_parse_keeps_keys_unique};
use parser::{empty_root, parse_text};
use reparse::{lemma_root_key_unreachable, sentinel_free};

verus! {

/// Parses a configuration into a new tree, rooted at a node with the key
/// `TOP_LEVEL_KEY`.
pub fn parse_config(content: &str) -> (r: Result<Config, NcclError>)
    requires
        content.spec_bytes().len() < usize::MAX,
    ensures
        match parse_text(content.spec_bytes(), empty_root()) {
            Err(e) => r == Err::<Config, NcclError>(e),
            Ok(n) => r is Ok && r->Ok_0@ == n,
        },
        r is Ok ==> tree_wf(r->Ok_0@),
        r is Ok ==> sentinel_free(r->Ok_0@, 0),
{
    let mut scanner = scanner::Scanner::new(content);
    proof {
        lemma_parse_keeps_keys_unique(content.spec_bytes(), empty_root());
        vstd::utf8::encode_utf8_valid_utf8(content@);
        if parse_text(content.spec_bytes(), empty_root()) is Ok {
            lemma_root_key_unreachable(content.spec_bytes());
        }
    }
    parser::parse(&mut scanner)
}

/// Parses a configuration on top of a copy of `config`: keys that `config`
/// has are extended, after their existing children, and new keys are added.
pub fn parse_config_with(config: &Config, content: &str) -> (r: Result<Config, NcclError>)
    requires
        content.spec_bytes().len() < usize::MAX,
    ensures
        match parse_text(content.spec_bytes(), config@) {
            Err(e) => r == Err::<Config, NcclError>(e),
            Ok(n) => r is Ok && r->Ok_0@ == n,
        },
        r is Ok ==> grows(r->Ok_0@, config@),
        r is Ok && tree_wf(config@) ==> tree_wf(r->Ok_0@),
{
    let mut scanner = scanner::Scanner::new(content);
    proof {
        lemma_parse_extends_seed(content.spec_bytes(), config@);
        if tree_wf(config@) {
            lemma_parse_keeps_keys_unique(content.spec_bytes(), config@);
        }
    }
    parser::parse_with(&mut scanner, config)
}

} // verus!
