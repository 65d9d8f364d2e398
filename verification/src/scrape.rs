//! Extracting offers out of the listing page.
//!
//! The `scraper` crate turns the page text into a document tree and walks
//! it; those calls stand behind trusted wrappers, and the values they hand
//! back are opaque. Everything decided about the extracted text — which
//! rows are well formed, which error a malformed row raises, how the seven
//! fields are cut and normalized — is verified in [`offers_from_rows`].
use crate::offer::{Offer, OfferV};
use crate::text::{is_normal, lemma_norm_text_normal, norm_text, normalize_field};
use vstd::prelude::*;

verus! {

#[verifier::external_type_specification]
#[verifier::external_body]
pub struct ExHtml(scraper::Html);

#[verifier::external_type_specification]
#[verifier::external_body]
pub struct ExElementRef<'a>(scraper::ElementRef<'a>);

/// Relies on `scraper::ElementRef::select` and `scraper::Selector::parse`:
/// all descendant elements matching the selector, in document order; empty
/// when the selector text is invalid.
#[verifier::external_body]
fn select_all<'a>(el: &scraper::ElementRef<'a>, sel: &str) -> Vec<scraper::ElementRef<'a>> {
    match scraper::Selector::parse(sel) {
        Ok(selector) => el.select(&selector).collect(),
        Err(_) => Vec::new(),
    }
}

/// Relies on `scraper::ElementRef::select` and `scraper::Selector::parse`:
/// the first descendant element matching the selector.
#[verifier::external_body]
fn select_first_in<'a>(el: &scraper::ElementRef<'a>, sel: &str) -> Option<
    scraper::ElementRef<'a>,
> {
    let selector = scraper::Selector::parse(sel).ok()?;
    el.select(&selector).next()
}

/// Relies on `scraper::ElementRef::inner_html`: the markup between the
/// element's tags.
#[verifier::external_body]
fn inner_html_of(el: &scraper::ElementRef<'_>) -> String {
    el.inner_html()
}

/// Relies on `scraper::ElementRef::attr`: the value of the named attribute,
/// `None` when the element has no such attribute.
#[verifier::external_body]
fn attr_value(el: &scraper::ElementRef<'_>, name: &str) -> Option<String> {
    el.attr(name).map(|v| v.to_owned())
}

/// Why a page failed to yield offers: the expected table, cell, anchor or
/// link target was missing. Any of these aborts the run.
#[derive(Debug, PartialEq, Eq)]
pub enum ParseError {
    MissingTable,
    MissingCell,
    MissingAnchor,
    MissingHref,
}

/// The first anchor found in a row's first cell: its link target, if any,
/// and its display text.
pub struct RawAnchor {
    pub href: Option<String>,
    pub text: String,
}

/// Mathematical image of a [`RawAnchor`].
pub ghost struct RawAnchorV {
    pub href: Option<Seq<char>>,
    pub text: Seq<char>,
}

impl View for RawAnchor {
    type V = RawAnchorV;

    open spec fn view(&self) -> RawAnchorV {
        RawAnchorV {
            href: match self.href {
                Some(h) => Some(h@),
                None => None,
            },
            text: self.text@,
        }
    }
}

/// One table row as the page shows it: the anchor of the first cell, if
/// the row has one, and the raw markup of every cell in order.
pub struct RawRow {
    pub anchor: Option<RawAnchor>,
    pub cells: Vec<String>,
}

/// Mathematical image of a [`RawRow`].
pub ghost struct RawRowV {
    pub anchor: Option<RawAnchorV>,
    pub cells: Seq<Seq<char>>,
}

impl View for RawRow {
    type V = RawRowV;

    open spec fn view(&self) -> RawRowV {
        RawRowV {
            anchor: match self.anchor {
                Some(a) => Some(a@),
                None => None,
            },
            cells: Seq::new(self.cells@.len(), |i: int| self.cells@[i]@),
        }
    }
}

/// The views of a sequence of raw rows, element for element.
pub open spec fn rows_view(s: Seq<RawRow>) -> Seq<RawRowV> {
    Seq::new(s.len(), |i: int| s[i]@)
}

/// What the first table body of a page holds, row by row: the anchor of
/// each row's first cell and the markup of each of its cells, read in
/// document order; nothing when the page has no table body. The page text
/// alone determines it.
pub uninterp spec fn doc_rows(html: Seq<char>) -> Option<Seq<RawRowV>>;

/// What, if anything, makes a raw row unusable, checked in the order the
/// row is read: a first cell must exist, it must hold an anchor, the
/// anchor must carry a link target, and five more cells must follow.
pub open spec fn row_error(r: RawRowV) -> Option<ParseError> {
    if r.cells.len() == 0 {
        Some(ParseError::MissingCell)
    } else if r.anchor is None {
        Some(ParseError::MissingAnchor)
    } else if r.anchor->Some_0.href is None {
        Some(ParseError::MissingHref)
    } else if r.cells.len() < 6 {
        Some(ParseError::MissingCell)
    } else {
        None
    }
}

/// Every row is well formed.
pub open spec fn rows_all_ok(rows: Seq<RawRowV>) -> bool {
    forall|j: int| 0 <= j < rows.len() ==> row_error(#[trigger] rows[j]) is None
}

/// The offer a well-formed row denotes: anchor text as id, anchor target
/// as link, the five following cells as the remaining fields, every field
/// normalized.
pub open spec fn offer_of_row(r: RawRowV) -> OfferV {
    OfferV {
        id: norm_text(r.anchor->Some_0.text),
        link: norm_text(r.anchor->Some_0.href->Some_0),
        address: norm_text(r.cells[1]),
        room_type: norm_text(r.cells[2]),
        cost: norm_text(r.cells[3]),
        n_rooms: norm_text(r.cells[4]),
        size: norm_text(r.cells[5]),
    }
}

/// Every field of the offer is in normal form.
pub open spec fn offer_normal(o: OfferV) -> bool {
    &&& is_normal(o.id)
    &&& is_normal(o.link)
    &&& is_normal(o.address)
    &&& is_normal(o.room_type)
    &&& is_normal(o.cost)
    &&& is_normal(o.n_rooms)
    &&& is_normal(o.size)
}

/// Turns the raw rows of the table into offers: one offer per row, in row
/// order, each field normalized; the first malformed row aborts with its
/// error.
pub fn offers_from_rows(rows: &Vec<RawRow>) -> (r: Result<Vec<Offer>, ParseError>)
    ensures
        r is Ok <==> (forall|j: int| 0 <= j < rows@.len() ==> row_error(rows@[j]@) is None),
        r is Ok ==> {
            &&& r->Ok_0@.len() == rows@.len()
            &&& forall|j: int|
                0 <= j < rows@.len() ==> r->Ok_0@[j]@ == offer_of_row(rows@[j]@)
        },
        r is Err ==> exists|k: int|
            {
                &&& 0 <= k < rows@.len()
                &&& #[trigger] row_error(rows@[k]@) == Some(r->Err_0)
                &&& forall|j: int| 0 <= j < k ==> row_error(rows@[j]@) is None
            },
{
    let mut out: Vec<Offer> = Vec::new();
    let mut i: usize = 0;
    while i < rows.len()
        invariant
            i <= rows@.len(),
            out@.len() == i,
            forall|j: int| 0 <= j < i ==> row_error(rows@[j]@) is None,
            forall|j: int| 0 <= j < i ==> out@[j]@ == offer_of_row(rows@[j]@),
        decreases rows@.len() - i,
    {
        let row = &rows[i];
        if row.cells.len() == 0 {
            proof {
                assert(row_error(rows@[i as int]@) == Some(ParseError::MissingCell));
            }
            return Err(ParseError::MissingCell);
        }
        let anchor = match &row.anchor {
            Some(a) => a,
            None => {
                proof {
                    assert(row_error(rows@[i as int]@) == Some(ParseError::MissingAnchor));
                }
                return Err(ParseError::MissingAnchor);
            },
        };
        let href = match &anchor.href {
            Some(h) => h,
            None => {
                proof {
                    assert(row_error(rows@[i as int]@) == Some(ParseError::MissingHref));
                }
                return Err(ParseError::MissingHref);
            },
        };
        if row.cells.len() < 6 {
            proof {
                assert(row_error(rows@[i as int]@) == Some(ParseError::MissingCell));
            }
            return Err(ParseError::MissingCell);
        }
        let id = normalize_field(anchor.text.as_str());
        let link = normalize_field(href.as_str());
        let address = normalize_field(row.cells[1].as_str());
        let room_type = normalize_field(row.cells[2].as_str());
        let cost = normalize_field(row.cells[3].as_str());
        let n_rooms = normalize_field(row.cells[4].as_str());
        let size = normalize_field(row.cells[5].as_str());
        let fields = vec![id, link, address, room_type, cost, n_rooms, size];
        let offer = Offer::new(fields);
        out.push(offer);
        proof {
            assert(out@[i as int]@ == offer_of_row(rows@[i as int]@));
        }
        i = i + 1;
    }
    Ok(out)
}

/// Reads one row element: the markup of its cells and the anchor of its
/// first cell.
fn row_of(tr: &scraper::ElementRef<'_>) -> RawRow {
    let tds = select_all(tr, "td");
    let mut cells: Vec<String> = Vec::new();
    let mut j: usize = 0;
    while j < tds.len()
        decreases tds@.len() - j,
    {
        cells.push(inner_html_of(&tds[j]));
        j = j + 1;
    }
    let anchor = if tds.len() > 0 {
        match select_first_in(&tds[0], "a") {
            Some(a) => Some(RawAnchor { href: attr_value(&a, "href"), text: inner_html_of(&a) }),
            None => None,
        }
    } else {
        None
    };
    RawRow { anchor, cells }
}

/// Relies on `scraper::Html::parse_document`, `Html::select`,
/// `ElementRef::select` and `Selector::parse`: parsing and traversal are
/// deterministic functions of the page text, so the rows of the first
/// table body — each read through the verified [`row_of`] — are the
/// function of the text named [`doc_rows`]; nothing exactly when the page
/// has no table body.
#[verifier::external_body]
fn collect_rows(html: &str) -> (r: Option<Vec<RawRow>>)
    ensures
        r is Some <==> doc_rows(html@) is Some,
        r is Some ==> rows_view(r->Some_0@) == doc_rows(html@)->Some_0,
{
    let doc = scraper::Html::parse_document(html);
    let tbody_sel = scraper::Selector::parse("tbody").ok()?;
    let tr_sel = scraper::Selector::parse("tr").ok()?;
    let tbody = doc.select(&tbody_sel).next()?;
    Some(tbody.select(&tr_sel).map(|tr| row_of(&tr)).collect())
}

/// Parses the listing page: locates the first table body, reads one offer
/// per row in document order, and normalizes every field. A page without
/// a table body fails with `MissingTable`; otherwise the result follows
/// the rows the page holds, named [`doc_rows`]: one offer per row when
/// every row is well formed, else the first malformed row's error.
pub fn parse_offers(html: &str) -> (r: Result<Vec<Offer>, ParseError>)
    ensures
        doc_rows(html@) is None ==> r == Err::<Vec<Offer>, ParseError>(ParseError::MissingTable),
        doc_rows(html@) is Some ==> (r is Ok <==> rows_all_ok(doc_rows(html@)->Some_0)),
        doc_rows(html@) is Some && r is Ok ==> {
            &&& r->Ok_0@.len() == doc_rows(html@)->Some_0.len()
            &&& forall|j: int|
                0 <= j < doc_rows(html@)->Some_0.len() ==> r->Ok_0@[j]@ == offer_of_row(
                    #[trigger] doc_rows(html@)->Some_0[j],
                )
        },
        doc_rows(html@) is Some && r is Err ==> exists|k: int|
            {
                &&& 0 <= k < doc_rows(html@)->Some_0.len()
                &&& #[trigger] row_error(doc_rows(html@)->Some_0[k]) == Some(r->Err_0)
                &&& forall|j: int| 0 <= j < k ==> row_error(doc_rows(html@)->Some_0[j]) is None
            },
        r is Ok ==> forall|j: int|
            0 <= j < r->Ok_0@.len() ==> #[trigger] offer_normal(r->Ok_0@[j]@),
{
    let rows = match collect_rows(html) {
        Some(rows) => rows,
        None => {
            return Err(ParseError::MissingTable);
        },
    };
    let r = offers_from_rows(&rows);
    proof {
        let rv = doc_rows(html@)->Some_0;
        assert(rows@.len() == rv.len());
        assert forall|j: int| 0 <= j < rv.len() implies rows@[j]@ == #[trigger] rv[j] by {
            assert(rv[j] == rows_view(rows@)[j]);
        }
        if r is Ok {
            assert(rows_all_ok(rv));
            assert forall|j: int| 0 <= j < r->Ok_0@.len() implies #[trigger] offer_normal(
                r->Ok_0@[j]@,
            ) by {
                let rw = rows@[j]@;
                lemma_norm_text_normal(rw.anchor->Some_0.text);
                lemma_norm_text_normal(rw.anchor->Some_0.href->Some_0);
                lemma_norm_text_normal(rw.cells[1]);
                lemma_norm_text_normal(rw.cells[2]);
                lemma_norm_text_normal(rw.cells[3]);
                lemma_norm_text_normal(rw.cells[4]);
                lemma_norm_text_normal(rw.cells[5]);
            }
        } else {
            let k = choose|k: int|
                {
                    &&& 0 <= k < rows@.len()
                    &&& #[trigger] row_error(rows@[k]@) == Some(r->Err_0)
                    &&& forall|j: int| 0 <= j < k ==> row_error(rows@[j]@) is None
                };
            assert(row_error(rv[k]) == Some(r->Err_0));
            assert(forall|j: int| 0 <= j < k ==> row_error(#[trigger] rv[j]) is None);
        }
    }
    r
}

} // verus!
