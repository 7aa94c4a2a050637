use vstd::prelude::*;

pub mod scanner;
pub mod token;

use crate::scanner::{Diagnostic, build_scanner, diagnostic_views, scan_errors, scanned};
use crate::token::dump_line;

verus! {

/// The interpreter's front end: runs the scanner over source texts and
/// remembers whether any of them held a lexical error.
pub struct Lox {
    pub had_error: bool,
}

pub fn build_lox() -> (r: Lox)
    ensures
        !r.had_error,
{
    Lox { had_error: false }
}

impl Lox {
    /// Scans `source`. Returns the token dump, one line per token and the
    /// end-of-input token last, and the lexical errors with their lines;
    /// an error sets `had_error`.
    pub fn run(&mut self, source: String) -> (r: (Vec<String>, Vec<Diagnostic>))
        requires
            source@.len() < usize::MAX,
        ensures
            r.0@.len() == scanned(source@).len(),
            forall|i: int| 0 <= i < r.0@.len() ==> #[trigger] r.0@[i]@ == dump_line(scanned(source@)[i]),
            diagnostic_views(r.1@) == scan_errors(source@),
            final(self).had_error == (old(self).had_error || scan_errors(source@).len() > 0),
    {
        let ghost src = source@;
        let mut scanner = build_scanner(source);
        let tokens = scanner.scan_tokens();
        let mut lines: Vec<String> = Vec::new();
        for i in 0..tokens.len()
            invariant
                tokens@.map_values(|t: crate::token::Token| t@) == scanned(src),
                lines@.len() == i,
                forall|j: int| 0 <= j < i ==> #[trigger] lines@[j]@ == dump_line(scanned(src)[j]),
        {
            lines.push(tokens[i].to_string());
        }
        if scanner.has_error() {
            self.had_error = true;
        }
        let mut diagnostics: Vec<Diagnostic> = Vec::new();
        let found = scanner.diagnostics();
        for i in 0..found.len()
            invariant
                diagnostic_views(found@) == scan_errors(src),
                diagnostics@ == found@.take(i as int),
        {
            diagnostics.push(found[i]);
            assert(found@.take(i + 1) =~= found@.take(i as int).push(found@[i as int]));
        }
        assert(found@.take(found@.len() as int) =~= found@);
        (lines, diagnostics)
    }
}

} // verus!
