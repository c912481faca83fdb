//! The capability for the houhuayuan.vip article host: an article page
//! yields a markdown document built from its title and paragraphs.

use vstd::prelude::*;

use crate::parser::scrape;
use crate::parser::{ParseError, ParseModel, ParseResult, Parser};
use crate::strutil::{before_first, join_sep, join_with, prefix_before};

verus! {

pub struct Houhuayuan;

/// The markdown document for a title and its paragraphs: a heading line,
/// then the paragraphs separated by blank lines, then a final newline.
pub open spec fn markdown_body(title: Seq<char>, paragraphs: Seq<Seq<char>>) -> Seq<char> {
    "# "@ + title + "\n\n"@ + join_sep(paragraphs, "\n\n"@) + "\n"@
}

impl Parser for Houhuayuan {
    open spec fn spec_domain(&self) -> Seq<char> {
        "houhuayuan.vip"@
    }

    /// The title is the part of the page title before the site-name
    /// separator; the body is built from the paragraphs directly inside the
    /// content container.
    open spec fn spec_parse(&self, raw: Seq<char>) -> Result<ParseModel, Seq<char>> {
        match scrape::first_inner_html(raw, "title"@) {
            None => Err("failed to parse the title"@),
            Some(full_title) => {
                let title = before_first(full_title, " \u{2013} "@);
                match scrape::nested_inner_htmls(raw, ".entry-content"@, ":scope > p"@) {
                    None => Err("failed to parse the body"@),
                    Some(paragraphs) => Ok(
                        ParseModel::Markdown { title, body: markdown_body(title, paragraphs) },
                    ),
                }
            },
        }
    }

    fn domain(&self) -> (r: &'static str)
        ensures
            r@ == self.spec_domain(),
    {
        "houhuayuan.vip"
    }

    fn parse(&self, raw: &str) -> (r: Result<ParseResult, ParseError>)
        ensures
            match r {
                Ok(p) => self.spec_parse(raw@) == Result::<ParseModel, Seq<char>>::Ok(p@),
                Err(e) => self.spec_parse(raw@) == Result::<ParseModel, Seq<char>>::Err(
                    e.message@,
                ),
            },
    {
        let full_title = match scrape::select_first_inner_html(raw, "title") {
            Some(full_title) => full_title,
            None => {
                return Err(ParseError { message: String::from_str("failed to parse the title") });
            },
        };
        let title = prefix_before(full_title.as_str(), " \u{2013} ");
        let paragraphs = match scrape::select_nested_inner_htmls(
            raw,
            ".entry-content",
            ":scope > p",
        ) {
            Some(paragraphs) => paragraphs,
            None => {
                return Err(ParseError { message: String::from_str("failed to parse the body") });
            },
        };
        let joined = join_with(&paragraphs, "\n\n");
        let mut body = String::from_str("# ");
        body.append(title.as_str());
        body.append("\n\n");
        body.append(joined.as_str());
        body.append("\n");
        proof {
            assert(body@ =~= markdown_body(title@, paragraphs.deep_view()));
        }
        Ok(ParseResult::Markdown { title, body })
    }
}

} // verus!
