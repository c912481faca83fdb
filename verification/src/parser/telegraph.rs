//! The capability for the telegra.ph article host: an article page yields
//! its title and the list of image locations it embeds.

use vstd::prelude::*;

use crate::parser::scrape;
use crate::parser::{ParseError, ParseModel, ParseResult, Parser};

verus! {

pub struct Telegraph;

impl Parser for Telegraph {
    open spec fn spec_domain(&self) -> Seq<char> {
        "telegra.ph"@
    }

    /// The title is the inner HTML of the first article-header heading; the
    /// assets are the source locations of every image, in document order.
    open spec fn spec_parse(&self, raw: Seq<char>) -> Result<ParseModel, Seq<char>> {
        match scrape::first_inner_html(raw, ".tl_article_header h1"@) {
            Some(title) => Ok(
                ParseModel::Images { title, urls: scrape::all_attr_values(raw, "img"@, "src"@) },
            ),
            None => Err("failed to find the title"@),
        }
    }

    fn domain(&self) -> (r: &'static str)
        ensures
            r@ == self.spec_domain(),
    {
        "telegra.ph"
    }

    fn parse(&self, raw: &str) -> (r: Result<ParseResult, ParseError>)
        ensures
            match r {
                Ok(p) => self.spec_parse(raw@) == Result::<ParseModel, Seq<char>>::Ok(p@),
                Err(e) => self.spec_parse(raw@) == Result::<ParseModel, Seq<char>>::Err(
                    e.message@,
                ),
            },
    {
        let title = match scrape::select_first_inner_html(raw, ".tl_article_header h1") {
            Some(title) => title,
            None => {
                return Err(ParseError { message: String::from_str("failed to find the title") });
            },
        };
        let urls = scrape::select_attr_values(raw, "img", "src");
        Ok(ParseResult::Images { title, urls })
    }
}

} // verus!
