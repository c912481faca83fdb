//! Extraction capabilities and their registry.
//!
//! A capability turns raw document text into either a text artifact or a
//! list of asset locations.  The registry maps an origin (a host name) to
//! the capability that handles it; the last registration for an origin wins.

use vstd::prelude::*;

pub mod houhuayuan;
pub mod scrape;
pub mod telegraph;

use crate::parser::houhuayuan::Houhuayuan;
use crate::parser::telegraph::Telegraph;

verus! {

/// The mathematical shape of an extraction result.
pub enum ParseModel {
    Markdown { title: Seq<char>, body: Seq<char> },
    Images { title: Seq<char>, urls: Seq<Seq<char>> },
}

/// What a capability produced: a named text document, or a title with an
/// ordered list of remote asset locations.
#[derive(Debug)]
pub enum ParseResult {
    Markdown { title: String, body: String },
    Images { title: String, urls: Vec<String> },
}

impl View for ParseResult {
    type V = ParseModel;

    open spec fn view(&self) -> ParseModel {
        match self {
            ParseResult::Markdown { title, body } => ParseModel::Markdown {
                title: title@,
                body: body@,
            },
            ParseResult::Images { title, urls } => ParseModel::Images {
                title: title@,
                urls: urls.deep_view(),
            },
        }
    }
}

/// A capability could not find the structure it expects in the document.
#[derive(Debug)]
pub struct ParseError {
    pub message: String,
}

/// An extraction capability: declares the origin it handles and turns raw
/// document text into one extraction result, as a pure transformation.
pub trait Parser: Sized {
    /// The origin this capability handles.  Unverified implementors may
    /// leave the default, about which nothing is known.
    open spec fn spec_domain(&self) -> Seq<char> {
        arbitrary()
    }

    /// The extraction this capability performs, or the message of the
    /// failure it reports.  Unverified implementors may leave the default,
    /// about which nothing is known.
    open spec fn spec_parse(&self, raw: Seq<char>) -> Result<ParseModel, Seq<char>> {
        arbitrary()
    }

    fn domain(&self) -> (r: &'static str)
        ensures
            r@ == self.spec_domain(),
    ;

    fn parse(&self, raw: &str) -> (r: Result<ParseResult, ParseError>)
        ensures
            match r {
                Ok(p) => self.spec_parse(raw@) == Result::<ParseModel, Seq<char>>::Ok(p@),
                Err(e) => self.spec_parse(raw@) == Result::<ParseModel, Seq<char>>::Err(
                    e.message@,
                ),
            },
    ;
}

/// One of the site capabilities this crate ships.
pub enum SiteParser {
    Telegraph(Telegraph),
    Houhuayuan(Houhuayuan),
}

impl Parser for SiteParser {
    open spec fn spec_domain(&self) -> Seq<char> {
        match self {
            SiteParser::Telegraph(p) => p.spec_domain(),
            SiteParser::Houhuayuan(p) => p.spec_domain(),
        }
    }

    open spec fn spec_parse(&self, raw: Seq<char>) -> Result<ParseModel, Seq<char>> {
        match self {
            SiteParser::Telegraph(p) => p.spec_parse(raw),
            SiteParser::Houhuayuan(p) => p.spec_parse(raw),
        }
    }

    fn domain(&self) -> (r: &'static str)
        ensures
            r@ == self.spec_domain(),
    {
        match self {
            SiteParser::Telegraph(p) => p.domain(),
            SiteParser::Houhuayuan(p) => p.domain(),
        }
    }

    fn parse(&self, raw: &str) -> (r: Result<ParseResult, ParseError>)
        ensures
            match r {
                Ok(p) => self.spec_parse(raw@) == Result::<ParseModel, Seq<char>>::Ok(p@),
                Err(e) => self.spec_parse(raw@) == Result::<ParseModel, Seq<char>>::Err(
                    e.message@,
                ),
            },
    {
        match self {
            SiteParser::Telegraph(p) => p.parse(raw),
            SiteParser::Houhuayuan(p) => p.parse(raw),
        }
    }
}

/// Character-by-character string equality.
pub fn str_eq(a: &str, b: &str) -> (r: bool)
    ensures
        r == (a@ == b@),
{
    let n = a.unicode_len();
    if n != b.unicode_len() {
        return false;
    }
    let mut i: usize = 0;
    while i < n
        invariant
            n == a@.len(),
            n == b@.len(),
            i <= n,
            forall|k: int| 0 <= k < i ==> a@[k] == b@[k],
        decreases n - i,
    {
        if a.get_char(i) != b.get_char(i) {
            return false;
        }
        i = i + 1;
    }
    proof {
        assert(a@ =~= b@);
    }
    true
}

/// The registered capability whose origin is `domain`, searching the most
/// recent registrations first.
pub open spec fn seq_get<P: Parser>(ps: Seq<P>, domain: Seq<char>) -> Option<P>
    decreases ps.len(),
{
    if ps.len() == 0 {
        None
    } else if ps.last().spec_domain() == domain {
        Some(ps.last())
    } else {
        seq_get(ps.drop_last(), domain)
    }
}

/// Maps an origin to the extraction capability registered for it.
pub struct Registry<P> {
    parsers: Vec<P>,
}

impl<P: Parser> Registry<P> {
    /// The capability registered for `domain`, if any; the last registration
    /// for an origin wins.
    pub closed spec fn spec_get(&self, domain: Seq<char>) -> Option<P> {
        seq_get(self.parsers@, domain)
    }

    pub fn new() -> (r: Self)
        ensures
            forall|d: Seq<char>| r.spec_get(d) is None,
    {
        Registry { parsers: Vec::new() }
    }

    /// Registers a capability for the origin it declares, replacing any
    /// earlier registration for that origin.
    pub fn register(&mut self, parser: P)
        ensures
            forall|d: Seq<char>|
                final(self).spec_get(d) == (if d == parser.spec_domain() {
                    Some(parser)
                } else {
                    old(self).spec_get(d)
                }),
    {
        let ghost before = self.parsers@;
        self.parsers.push(parser);
        proof {
            assert(self.parsers@.drop_last() =~= before);
            assert(self.parsers@.last() == parser);
        }
    }

    /// Looks up the capability for an origin; absence is the normal outcome
    /// for an unsupported origin.
    pub fn get(&self, domain: &str) -> (r: Option<&P>)
        ensures
            match r {
                Some(p) => self.spec_get(domain@) == Some(*p),
                None => self.spec_get(domain@) is None,
            },
    {
        let ghost all = self.parsers@;
        let mut k = self.parsers.len();
        proof {
            assert(all.take(k as int) =~= all);
        }
        while k > 0
            invariant
                all == self.parsers@,
                k <= self.parsers.len(),
                seq_get(all, domain@) == seq_get(all.take(k as int), domain@),
            decreases k,
        {
            let p = &self.parsers[k - 1];
            let matches_domain = str_eq(p.domain(), domain);
            proof {
                assert(all.take(k as int).last() == all[k - 1]);
                assert(all.take(k as int).drop_last() =~= all.take(k - 1));
            }
            if matches_domain {
                return Some(p);
            }
            k = k - 1;
        }
        proof {
            assert(all.take(0) =~= Seq::<P>::empty());
        }
        None
    }
}

/// The registry with every site capability of this crate registered.
pub fn init_registry() -> (r: Registry<SiteParser>)
    ensures
        r.spec_get(Telegraph.spec_domain()) == Some(SiteParser::Telegraph(Telegraph)),
        r.spec_get(Houhuayuan.spec_domain()) == Some(SiteParser::Houhuayuan(Houhuayuan)),
        forall|d: Seq<char>|
            d != Telegraph.spec_domain() && d != Houhuayuan.spec_domain() ==> r.spec_get(d) is None,
{
    let mut registry = Registry::new();
    registry.register(SiteParser::Telegraph(Telegraph));
    registry.register(SiteParser::Houhuayuan(Houhuayuan));
    proof {
        reveal_strlit("telegra.ph");
        reveal_strlit("houhuayuan.vip");
        assert(Telegraph.spec_domain().len() != Houhuayuan.spec_domain().len());
    }
    registry
}

} // verus!
