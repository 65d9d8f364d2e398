//! The offer record: one housing listing, seven textual fields.
use vstd::prelude::*;

verus! {

/// Mathematical image of an [`Offer`]: the seven fields as character
/// sequences.
#[verifier::ext_equal]
pub ghost struct OfferV {
    pub id: Seq<char>,
    pub link: Seq<char>,
    pub address: Seq<char>,
    pub room_type: Seq<char>,
    pub cost: Seq<char>,
    pub n_rooms: Seq<char>,
    pub size: Seq<char>,
}

/// One housing listing scraped from the source page or read back from the
/// cache. Immutable once constructed.
#[derive(Debug, PartialEq, Eq)]
pub struct Offer {
    pub id: String,
    pub link: String,
    pub address: String,
    pub room_type: String,
    pub cost: String,
    pub n_rooms: String,
    pub size: String,
}

impl View for Offer {
    type V = OfferV;

    open spec fn view(&self) -> OfferV {
        OfferV {
            id: self.id@,
            link: self.link@,
            address: self.address@,
            room_type: self.room_type@,
            cost: self.cost@,
            n_rooms: self.n_rooms@,
            size: self.size@,
        }
    }
}

/// The views of a sequence of offers, element for element.
pub open spec fn offers_view(s: Seq<Offer>) -> Seq<OfferV> {
    Seq::new(s.len(), |i: int| s[i]@)
}

impl Offer {
    /// Builds an offer from the seven field values, in the fixed order
    /// id, link, address, room_type, cost, n_rooms, size.
    pub fn new(array: Vec<String>) -> (r: Offer)
        requires
            array@.len() >= 7,
        ensures
            r@.id == array@[0]@,
            r@.link == array@[1]@,
            r@.address == array@[2]@,
            r@.room_type == array@[3]@,
            r@.cost == array@[4]@,
            r@.n_rooms == array@[5]@,
            r@.size == array@[6]@,
    {
        Offer {
            id: array[0].clone(),
            link: array[1].clone(),
            address: array[2].clone(),
            room_type: array[3].clone(),
            cost: array[4].clone(),
            n_rooms: array[5].clone(),
            size: array[6].clone(),
        }
    }

    /// A copy of the offer with the same seven fields.
    pub fn duplicate(&self) -> (r: Offer)
        ensures
            r@ == self@,
    {
        Offer {
            id: self.id.clone(),
            link: self.link.clone(),
            address: self.address.clone(),
            room_type: self.room_type.clone(),
            cost: self.cost.clone(),
            n_rooms: self.n_rooms.clone(),
            size: self.size.clone(),
        }
    }
}

} // verus!
