//! The cache format: a JSON array of objects, one per offer, each holding
//! exactly the seven string fields. The serializer emits the compact form
//! with the keys in a fixed order; the parser accepts the keys in any
//! order, tolerates whitespace between tokens, and reads every standard
//! JSON string escape, `\uXXXX` surrogate pairs included. Reading anything
//! the serializer wrote yields the original offers back, which
//! [`lemma_cache_round_trip`] proves.
use crate::offer::{offers_view, Offer, OfferV};
use crate::text::{chars_of, string_from_chars};
use vstd::prelude::*;

verus! {

// ---------------------------------------------------------------------
// Serialization, as mathematics.
// ---------------------------------------------------------------------
/// `s` with every quote and backslash preceded by a backslash.
pub open spec fn esc(s: Seq<char>) -> Seq<char>
    decreases s.len(),
{
    if s.len() == 0 {
        Seq::empty()
    } else if s[0] == '"' || s[0] == '\\' {
        seq!['\\', s[0]] + esc(s.skip(1))
    } else {
        seq![s[0]] + esc(s.skip(1))
    }
}

/// A JSON string token: the escaped text between quotes.
pub open spec fn ser_string(s: Seq<char>) -> Seq<char> {
    seq!['"'] + esc(s) + seq!['"']
}

/// One `"key":"value"` member.
pub open spec fn ser_field(key: Seq<char>, v: Seq<char>) -> Seq<char> {
    ser_string(key) + seq![':'] + ser_string(v)
}

/// One `,"key":"value"` member continuation.
pub open spec fn ser_field_sep(key: Seq<char>, v: Seq<char>) -> Seq<char> {
    seq![','] + ser_field(key, v)
}

pub open spec fn key_id() -> Seq<char> {
    "id"@
}

pub open spec fn key_link() -> Seq<char> {
    "link"@
}

pub open spec fn key_address() -> Seq<char> {
    "address"@
}

pub open spec fn key_room_type() -> Seq<char> {
    "room_type"@
}

pub open spec fn key_cost() -> Seq<char> {
    "cost"@
}

pub open spec fn key_n_rooms() -> Seq<char> {
    "n_rooms"@
}

pub open spec fn key_size() -> Seq<char> {
    "size"@
}

/// One offer as a JSON object, keys in the fixed order.
pub open spec fn ser_offer(o: OfferV) -> Seq<char> {
    seq!['{'] + ser_field(key_id(), o.id) + ser_field_sep(key_link(), o.link) + ser_field_sep(
        key_address(),
        o.address,
    ) + ser_field_sep(key_room_type(), o.room_type) + ser_field_sep(key_cost(), o.cost)
        + ser_field_sep(key_n_rooms(), o.n_rooms) + ser_field_sep(key_size(), o.size) + seq!['}']
}

/// A non-empty list of offer objects, comma separated.
pub open spec fn ser_items(l: Seq<OfferV>) -> Seq<char>
    decreases l.len(),
{
    if l.len() <= 1 {
        ser_offer(l[0])
    } else {
        ser_offer(l[0]) + seq![','] + ser_items(l.skip(1))
    }
}

/// The whole cache: a JSON array of the offers, in order.
pub open spec fn ser_cache(l: Seq<OfferV>) -> Seq<char> {
    if l.len() == 0 {
        seq!['[', ']']
    } else {
        seq!['['] + ser_items(l) + seq![']']
    }
}

// ---------------------------------------------------------------------
// Parsing, as mathematics. Each function consumes a prefix and yields the
// parsed value with the unread remainder, or nothing when the text does
// not fit the grammar.
// ---------------------------------------------------------------------
/// JSON inter-token whitespace.
pub open spec fn is_ws(c: char) -> bool {
    c == ' ' || c == '\t' || c == '\n' || c == '\r'
}

/// `s` without its leading whitespace.
pub open spec fn skip_ws(s: Seq<char>) -> Seq<char>
    decreases s.len(),
{
    if s.len() > 0 && is_ws(s[0]) {
        skip_ws(s.skip(1))
    } else {
        s
    }
}

/// Consumes the single expected character.
pub open spec fn expect(s: Seq<char>, c: char) -> Option<Seq<char>> {
    if s.len() > 0 && s[0] == c {
        Some(s.skip(1))
    } else {
        None
    }
}

/// The value of one hexadecimal digit, `-1` for any other character.
pub open spec fn hex_val(c: char) -> int {
    if '0' <= c && c <= '9' {
        c as int - '0' as int
    } else if 'a' <= c && c <= 'f' {
        10 + c as int - 'a' as int
    } else if 'A' <= c && c <= 'F' {
        10 + c as int - 'A' as int
    } else {
        -1
    }
}

/// The value of four hexadecimal digits, `-1` when any is not one.
pub open spec fn hex4(a: char, b: char, c: char, d: char) -> int {
    if hex_val(a) >= 0 && hex_val(b) >= 0 && hex_val(c) >= 0 && hex_val(d) >= 0 {
        hex_val(a) * 4096 + hex_val(b) * 256 + hex_val(c) * 16 + hex_val(d)
    } else {
        -1
    }
}

/// A `\uXXXX` escape at the start of `s` (`s[0] == '\\'`, `s[1] == 'u'`):
/// the decoded character and how many characters it took — twelve for a
/// surrogate pair, six otherwise.
pub open spec fn parse_u_escape(s: Seq<char>) -> Option<(char, int)> {
    if s.len() < 6 || hex4(s[2], s[3], s[4], s[5]) < 0 {
        None
    } else if 0xD800 <= hex4(s[2], s[3], s[4], s[5]) < 0xDC00 {
        if s.len() >= 12 && s[6] == '\\' && s[7] == 'u' && 0xDC00 <= hex4(s[8], s[9], s[10], s[11])
            < 0xE000 {
            Some(
                (
                    ((0x10000 + (hex4(s[2], s[3], s[4], s[5]) - 0xD800) * 0x400 + (hex4(
                        s[8],
                        s[9],
                        s[10],
                        s[11],
                    ) - 0xDC00)) as char),
                    12,
                ),
            )
        } else {
            None
        }
    } else if 0xDC00 <= hex4(s[2], s[3], s[4], s[5]) < 0xE000 {
        None
    } else {
        Some(((hex4(s[2], s[3], s[4], s[5]) as char), 6))
    }
}

/// Prepends one decoded character to the text of a string-body parse.
pub open spec fn psb_cons(c: char, r: Option<(Seq<char>, Seq<char>)>) -> Option<
    (Seq<char>, Seq<char>),
> {
    match r {
        Some(p) => Some((seq![c] + p.0, p.1)),
        None => None,
    }
}

/// The inside of a string token, after the opening quote: unescapes up to
/// the closing quote. All standard JSON escapes are read, `\uXXXX`
/// surrogate pairs included.
pub open spec fn parse_str_body(s: Seq<char>) -> Option<(Seq<char>, Seq<char>)>
    decreases s.len(),
{
    if s.len() == 0 {
        None
    } else if s[0] == '"' {
        Some((Seq::empty(), s.skip(1)))
    } else if s[0] == '\\' {
        if s.len() < 2 {
            None
        } else if s[1] == '"' || s[1] == '\\' || s[1] == '/' {
            psb_cons(s[1], parse_str_body(s.skip(2)))
        } else if s[1] == 'b' {
            psb_cons('\u{8}', parse_str_body(s.skip(2)))
        } else if s[1] == 'f' {
            psb_cons('\u{c}', parse_str_body(s.skip(2)))
        } else if s[1] == 'n' {
            psb_cons('\n', parse_str_body(s.skip(2)))
        } else if s[1] == 'r' {
            psb_cons('\r', parse_str_body(s.skip(2)))
        } else if s[1] == 't' {
            psb_cons('\t', parse_str_body(s.skip(2)))
        } else if s[1] == 'u' {
            match parse_u_escape(s) {
                None => None,
                Some(p) => psb_cons(p.0, parse_str_body(s.skip(p.1))),
            }
        } else {
            None
        }
    } else {
        psb_cons(s[0], parse_str_body(s.skip(1)))
    }
}

/// A whole string token, quotes included.
pub open spec fn parse_string(s: Seq<char>) -> Option<(Seq<char>, Seq<char>)> {
    if s.len() > 0 && s[0] == '"' {
        parse_str_body(s.skip(1))
    } else {
        None
    }
}

/// One `"key":"value"` member: the key, the value, and the remainder.
pub open spec fn parse_member(s: Seq<char>) -> Option<((Seq<char>, Seq<char>), Seq<char>)> {
    match parse_string(skip_ws(s)) {
        None => None,
        Some(p) => match expect(skip_ws(p.1), ':') {
            None => None,
            Some(r) => match parse_string(skip_ws(r)) {
                None => None,
                Some(q) => Some(((p.0, q.0), q.1)),
            },
        },
    }
}

/// An offer object while its members are being read: each field either
/// still missing or already seen once.
#[verifier::ext_equal]
pub ghost struct PartialV {
    pub id: Option<Seq<char>>,
    pub link: Option<Seq<char>>,
    pub address: Option<Seq<char>>,
    pub room_type: Option<Seq<char>>,
    pub cost: Option<Seq<char>>,
    pub n_rooms: Option<Seq<char>>,
    pub size: Option<Seq<char>>,
}

/// No member seen yet.
pub open spec fn empty_partial() -> PartialV {
    PartialV {
        id: None,
        link: None,
        address: None,
        room_type: None,
        cost: None,
        n_rooms: None,
        size: None,
    }
}

/// Records one member: the key must be one of the seven and not yet seen.
pub open spec fn set_field(acc: PartialV, key: Seq<char>, val: Seq<char>) -> Option<PartialV> {
    if key == key_id() {
        if acc.id is Some {
            None
        } else {
            Some(PartialV { id: Some(val), ..acc })
        }
    } else if key == key_link() {
        if acc.link is Some {
            None
        } else {
            Some(PartialV { link: Some(val), ..acc })
        }
    } else if key == key_address() {
        if acc.address is Some {
            None
        } else {
            Some(PartialV { address: Some(val), ..acc })
        }
    } else if key == key_room_type() {
        if acc.room_type is Some {
            None
        } else {
            Some(PartialV { room_type: Some(val), ..acc })
        }
    } else if key == key_cost() {
        if acc.cost is Some {
            None
        } else {
            Some(PartialV { cost: Some(val), ..acc })
        }
    } else if key == key_n_rooms() {
        if acc.n_rooms is Some {
            None
        } else {
            Some(PartialV { n_rooms: Some(val), ..acc })
        }
    } else if key == key_size() {
        if acc.size is Some {
            None
        } else {
            Some(PartialV { size: Some(val), ..acc })
        }
    } else {
        None
    }
}

/// Exactly `n` comma-separated members on top of `acc`, keys drawn from
/// the seven without repetition, in any order.
pub open spec fn parse_members(s: Seq<char>, n: nat, acc: PartialV) -> Option<
    (PartialV, Seq<char>),
>
    decreases n,
{
    match parse_member(s) {
        None => None,
        Some(p) => match set_field(acc, p.0.0, p.0.1) {
            None => None,
            Some(acc2) => if n <= 1 {
                Some((acc2, p.1))
            } else {
                match expect(skip_ws(p.1), ',') {
                    None => None,
                    Some(r) => parse_members(r, (n - 1) as nat, acc2),
                }
            },
        },
    }
}

/// One offer object: seven members, each of the seven keys exactly once,
/// in any order.
pub open spec fn parse_offer_obj(s: Seq<char>) -> Option<(OfferV, Seq<char>)> {
    match expect(skip_ws(s), '{') {
        None => None,
        Some(s1) => match parse_members(s1, 7, empty_partial()) {
            None => None,
            Some((acc, r)) => match expect(skip_ws(r), '}') {
                None => None,
                Some(r8) => if acc.id is Some && acc.link is Some && acc.address is Some
                    && acc.room_type is Some && acc.cost is Some && acc.n_rooms is Some
                    && acc.size is Some {
                    Some(
                        (
                            OfferV {
                                id: acc.id->Some_0,
                                link: acc.link->Some_0,
                                address: acc.address->Some_0,
                                room_type: acc.room_type->Some_0,
                                cost: acc.cost->Some_0,
                                n_rooms: acc.n_rooms->Some_0,
                                size: acc.size->Some_0,
                            },
                            r8,
                        ),
                    )
                } else {
                    None
                },
            },
        },
    }
}

/// One or more offer objects, comma separated.
pub open spec fn parse_items(s: Seq<char>) -> Option<(Seq<OfferV>, Seq<char>)>
    decreases s.len(),
        via parse_items_dec
{
    match parse_offer_obj(s) {
        None => None,
        Some((o, r)) => {
            let r1 = skip_ws(r);
            if r1.len() > 0 && r1[0] == ',' {
                match parse_items(r1.skip(1)) {
                    None => None,
                    Some((l, r2)) => Some((seq![o] + l, r2)),
                }
            } else {
                Some((seq![o], r))
            }
        },
    }
}

#[via_fn]
proof fn parse_items_dec(s: Seq<char>) {
    lemma_parse_offer_obj_len(s);
    let p = parse_offer_obj(s);
    if p is Some {
        lemma_skip_ws_len(p->Some_0.1);
    }
}

/// The whole cache text: the array with nothing but whitespace around it.
pub open spec fn parse_cache_spec(s: Seq<char>) -> Option<Seq<OfferV>> {
    match expect(skip_ws(s), '[') {
        None => None,
        Some(s1) => {
            let s2 = skip_ws(s1);
            if s2.len() > 0 && s2[0] == ']' {
                if skip_ws(s2.skip(1)).len() == 0 {
                    Some(Seq::empty())
                } else {
                    None
                }
            } else {
                match parse_items(s1) {
                    None => None,
                    Some((l, r)) => match expect(skip_ws(r), ']') {
                        None => None,
                        Some(r2) => if skip_ws(r2).len() == 0 {
                            Some(l)
                        } else {
                            None
                        },
                    },
                }
            }
        },
    }
}

// ---------------------------------------------------------------------
// How much each parsing step consumes.
// ---------------------------------------------------------------------
proof fn lemma_skip_ws_len(s: Seq<char>)
    ensures
        skip_ws(s).len() <= s.len(),
    decreases s.len(),
{
    if s.len() > 0 && is_ws(s[0]) {
        lemma_skip_ws_len(s.skip(1));
    }
}

proof fn lemma_parse_str_body_len(s: Seq<char>)
    ensures
        parse_str_body(s) is Some ==> parse_str_body(s)->Some_0.1.len() < s.len(),
    decreases s.len(),
{
    if s.len() == 0 {
    } else if s[0] == '"' {
    } else if s[0] == '\\' {
        if s.len() >= 2 {
            lemma_parse_str_body_len(s.skip(2));
            if s.len() >= 6 {
                lemma_parse_str_body_len(s.skip(6));
            }
            if s.len() >= 12 {
                lemma_parse_str_body_len(s.skip(12));
            }
        }
    } else {
        lemma_parse_str_body_len(s.skip(1));
    }
}

proof fn lemma_parse_string_len(s: Seq<char>)
    ensures
        parse_string(s) is Some ==> parse_string(s)->Some_0.1.len() < s.len(),
{
    if s.len() > 0 && s[0] == '"' {
        lemma_parse_str_body_len(s.skip(1));
    }
}

proof fn lemma_parse_member_len(s: Seq<char>)
    ensures
        parse_member(s) is Some ==> parse_member(s)->Some_0.1.len() < s.len(),
{
    lemma_skip_ws_len(s);
    let a = skip_ws(s);
    lemma_parse_string_len(a);
    if parse_string(a) is Some {
        let r = parse_string(a)->Some_0.1;
        lemma_skip_ws_len(r);
        let b = skip_ws(r);
        if expect(b, ':') is Some {
            let c = b.skip(1);
            lemma_skip_ws_len(c);
            lemma_parse_string_len(skip_ws(c));
        }
    }
}

proof fn lemma_parse_members_len(s: Seq<char>, n: nat, acc: PartialV)
    ensures
        parse_members(s, n, acc) is Some ==> parse_members(s, n, acc)->Some_0.1.len() < s.len(),
    decreases n,
{
    lemma_parse_member_len(s);
    if parse_member(s) is Some {
        let p = parse_member(s)->Some_0;
        if set_field(acc, p.0.0, p.0.1) is Some && n > 1 {
            let acc2 = set_field(acc, p.0.0, p.0.1)->Some_0;
            lemma_skip_ws_len(p.1);
            if expect(skip_ws(p.1), ',') is Some {
                lemma_parse_members_len(skip_ws(p.1).skip(1), (n - 1) as nat, acc2);
            }
        }
    }
}

proof fn lemma_parse_offer_obj_len(s: Seq<char>)
    ensures
        parse_offer_obj(s) is Some ==> parse_offer_obj(s)->Some_0.1.len() < s.len(),
{
    lemma_skip_ws_len(s);
    let a = skip_ws(s);
    if expect(a, '{') is Some {
        let s1 = a.skip(1);
        lemma_parse_members_len(s1, 7, empty_partial());
        if parse_members(s1, 7, empty_partial()) is Some {
            let r = parse_members(s1, 7, empty_partial())->Some_0.1;
            lemma_skip_ws_len(r);
        }
    }
}

// ---------------------------------------------------------------------
// Round trip: parsing what the serializer wrote yields the offers back.
// ---------------------------------------------------------------------
proof fn lemma_skip_ws_id(s: Seq<char>)
    requires
        s.len() == 0 || !is_ws(s[0]),
    ensures
        skip_ws(s) == s,
{
}

proof fn lemma_parse_str_body_round(v: Seq<char>, rest: Seq<char>)
    ensures
        parse_str_body(esc(v) + seq!['"'] + rest) == Some((v, rest)),
    decreases v.len(),
{
    let s = esc(v) + seq!['"'] + rest;
    if v.len() == 0 {
        assert(esc(v) =~= Seq::<char>::empty());
        assert(s =~= seq!['"'] + rest);
        assert(s[0] == '"');
        assert(s.skip(1) =~= rest);
        assert(v =~= Seq::<char>::empty());
    } else if v[0] == '"' || v[0] == '\\' {
        assert(s[0] == '\\');
        assert(s.len() >= 2);
        assert(s[1] == v[0]);
        lemma_parse_str_body_round(v.skip(1), rest);
        assert(s.skip(2) =~= esc(v.skip(1)) + seq!['"'] + rest);
        assert(seq![s[1]] + v.skip(1) =~= v);
    } else {
        assert(s[0] == v[0]);
        assert(s[0] != '"' && s[0] != '\\');
        lemma_parse_str_body_round(v.skip(1), rest);
        assert(s.skip(1) =~= esc(v.skip(1)) + seq!['"'] + rest);
        assert(seq![v[0]] + v.skip(1) =~= v);
    }
}

proof fn lemma_parse_string_round(v: Seq<char>, rest: Seq<char>)
    ensures
        parse_string(ser_string(v) + rest) == Some((v, rest)),
{
    let s = ser_string(v) + rest;
    assert(s[0] == '"');
    lemma_parse_str_body_round(v, rest);
    assert(s.skip(1) =~= esc(v) + seq!['"'] + rest);
}

proof fn lemma_parse_member_round(key: Seq<char>, v: Seq<char>, rest: Seq<char>)
    ensures
        parse_member(ser_field(key, v) + rest) == Some(((key, v), rest)),
{
    let s = ser_field(key, v) + rest;
    let rest1 = seq![':'] + ser_string(v) + rest;
    assert(s =~= ser_string(key) + rest1);
    assert(s[0] == '"');
    assert(!is_ws(s[0]));
    lemma_skip_ws_id(s);
    lemma_parse_string_round(key, rest1);
    assert(parse_string(skip_ws(s)) == Some((key, rest1)));
    assert(rest1[0] == ':');
    lemma_skip_ws_id(rest1);
    let rest2 = ser_string(v) + rest;
    assert(rest1.skip(1) =~= rest2);
    assert(rest2[0] == '"');
    lemma_skip_ws_id(rest2);
    lemma_parse_string_round(v, rest);
}

/// The seven member keys are pairwise distinct texts.
proof fn lemma_keys_distinct()
    ensures
        key_id() != key_link(),
        key_id() != key_address(),
        key_id() != key_room_type(),
        key_id() != key_cost(),
        key_id() != key_n_rooms(),
        key_id() != key_size(),
        key_link() != key_address(),
        key_link() != key_room_type(),
        key_link() != key_cost(),
        key_link() != key_n_rooms(),
        key_link() != key_size(),
        key_address() != key_room_type(),
        key_address() != key_cost(),
        key_address() != key_n_rooms(),
        key_address() != key_size(),
        key_room_type() != key_cost(),
        key_room_type() != key_n_rooms(),
        key_room_type() != key_size(),
        key_cost() != key_n_rooms(),
        key_cost() != key_size(),
        key_n_rooms() != key_size(),
{
    reveal_strlit("id");
    reveal_strlit("link");
    reveal_strlit("address");
    reveal_strlit("room_type");
    reveal_strlit("cost");
    reveal_strlit("n_rooms");
    reveal_strlit("size");
    assert(key_id().len() == 2);
    assert(key_link().len() == 4);
    assert(key_address().len() == 7);
    assert(key_room_type().len() == 9);
    assert(key_cost().len() == 4);
    assert(key_n_rooms().len() == 7);
    assert(key_size().len() == 4);
    assert(key_link()[0] == 'l' && key_cost()[0] == 'c' && key_size()[0] == 's');
    assert(key_address()[0] == 'a' && key_n_rooms()[0] == 'n');
}

proof fn lemma_members_cons(key: Seq<char>, v: Seq<char>, u: Seq<char>, n: nat, acc: PartialV)
    requires
        set_field(acc, key, v) is Some,
        n >= 2,
    ensures
        parse_members(ser_field(key, v) + (seq![','] + u), n, acc) == parse_members(
            u,
            (n - 1) as nat,
            set_field(acc, key, v)->Some_0,
        ),
{
    lemma_parse_member_round(key, v, seq![','] + u);
    assert((seq![','] + u)[0] == ',');
    lemma_skip_ws_id(seq![','] + u);
    assert((seq![','] + u).skip(1) =~= u);
}

proof fn lemma_members_last(key: Seq<char>, v: Seq<char>, u: Seq<char>, acc: PartialV)
    requires
        set_field(acc, key, v) is Some,
    ensures
        parse_members(ser_field(key, v) + u, 1, acc) == Some((set_field(acc, key, v)->Some_0, u)),
{
    lemma_parse_member_round(key, v, u);
}

#[verifier::rlimit(100)]
#[verifier::spinoff_prover]
proof fn lemma_parse_offer_obj_round(o: OfferV, rest: Seq<char>)
    ensures
        parse_offer_obj(ser_offer(o) + rest) == Some((o, rest)),
{
    lemma_keys_distinct();
    let s = ser_offer(o) + rest;
    let tail = seq!['}'] + rest;
    let w7 = ser_field(key_size(), o.size) + tail;
    let w6 = ser_field(key_n_rooms(), o.n_rooms) + (seq![','] + w7);
    let w5 = ser_field(key_cost(), o.cost) + (seq![','] + w6);
    let w4 = ser_field(key_room_type(), o.room_type) + (seq![','] + w5);
    let w3 = ser_field(key_address(), o.address) + (seq![','] + w4);
    let w2 = ser_field(key_link(), o.link) + (seq![','] + w3);
    let w1 = ser_field(key_id(), o.id) + (seq![','] + w2);
    assert(s =~= seq!['{'] + w1);
    assert(s[0] == '{');
    lemma_skip_ws_id(s);
    assert(s.skip(1) =~= w1);
    let a0 = empty_partial();
    let a1 = PartialV { id: Some(o.id), ..a0 };
    let a2 = PartialV { link: Some(o.link), ..a1 };
    let a3 = PartialV { address: Some(o.address), ..a2 };
    let a4 = PartialV { room_type: Some(o.room_type), ..a3 };
    let a5 = PartialV { cost: Some(o.cost), ..a4 };
    let a6 = PartialV { n_rooms: Some(o.n_rooms), ..a5 };
    let a7 = PartialV { size: Some(o.size), ..a6 };
    assert(set_field(a0, key_id(), o.id) == Some(a1));
    assert(set_field(a1, key_link(), o.link) == Some(a2));
    assert(set_field(a2, key_address(), o.address) == Some(a3));
    assert(set_field(a3, key_room_type(), o.room_type) == Some(a4));
    assert(set_field(a4, key_cost(), o.cost) == Some(a5));
    assert(set_field(a5, key_n_rooms(), o.n_rooms) == Some(a6));
    assert(set_field(a6, key_size(), o.size) == Some(a7));
    lemma_members_cons(key_id(), o.id, w2, 7, a0);
    lemma_members_cons(key_link(), o.link, w3, 6, a1);
    lemma_members_cons(key_address(), o.address, w4, 5, a2);
    lemma_members_cons(key_room_type(), o.room_type, w5, 4, a3);
    lemma_members_cons(key_cost(), o.cost, w6, 3, a4);
    lemma_members_cons(key_n_rooms(), o.n_rooms, w7, 2, a5);
    lemma_members_last(key_size(), o.size, tail, a6);
    assert(parse_members(s.skip(1), 7, a0) == Some((a7, tail)));
    assert(tail[0] == '}');
    lemma_skip_ws_id(tail);
    assert(tail.skip(1) =~= rest);
    assert(OfferV {
        id: a7.id->Some_0,
        link: a7.link->Some_0,
        address: a7.address->Some_0,
        room_type: a7.room_type->Some_0,
        cost: a7.cost->Some_0,
        n_rooms: a7.n_rooms->Some_0,
        size: a7.size->Some_0,
    } =~= o);
}

#[verifier::rlimit(100)]
#[verifier::spinoff_prover]
proof fn lemma_parse_items_round(l: Seq<OfferV>, rest: Seq<char>)
    requires
        l.len() >= 1,
        skip_ws(rest).len() == 0 || skip_ws(rest)[0] != ',',
    ensures
        parse_items(ser_items(l) + rest) == Some((l, rest)),
    decreases l.len(),
{
    let s = ser_items(l) + rest;
    if l.len() == 1 {
        assert(s =~= ser_offer(l[0]) + rest);
        lemma_parse_offer_obj_round(l[0], rest);
        assert(seq![l[0]] =~= l);
    } else {
        let restm = ser_items(l.skip(1)) + rest;
        let rest1 = seq![','] + restm;
        assert(s =~= ser_offer(l[0]) + rest1);
        lemma_parse_offer_obj_round(l[0], rest1);
        assert(rest1[0] == ',');
        lemma_skip_ws_id(rest1);
        assert(rest1.skip(1) =~= restm);
        lemma_parse_items_round(l.skip(1), rest);
        assert(seq![l[0]] + l.skip(1) =~= l);
    }
}

/// Law: the cache format round-trips. Parsing the serialized form of any
/// list of offers yields exactly that list, field for field, in order.
#[verifier::rlimit(100)]
#[verifier::spinoff_prover]
pub proof fn lemma_cache_round_trip(l: Seq<OfferV>)
    ensures
        parse_cache_spec(ser_cache(l)) == Some(l),
{
    let s = ser_cache(l);
    if l.len() == 0 {
        assert(s[0] == '[');
        lemma_skip_ws_id(s);
        let s1 = s.skip(1);
        assert(s1 =~= seq![']']);
        lemma_skip_ws_id(s1);
        assert(s1[0] == ']');
        assert(s1.skip(1) =~= Seq::<char>::empty());
        assert(skip_ws(Seq::<char>::empty()).len() == 0);
        assert(l =~= Seq::<OfferV>::empty());
    } else {
        let rest = seq![']'];
        assert(s =~= seq!['['] + (ser_items(l) + rest));
        assert(s[0] == '[');
        lemma_skip_ws_id(s);
        let s1 = s.skip(1);
        assert(s1 =~= ser_items(l) + rest);
        assert(ser_offer(l[0])[0] == '{');
        assert(ser_items(l)[0] == '{');
        assert(s1[0] == '{');
        lemma_skip_ws_id(s1);
        lemma_skip_ws_id(rest);
        lemma_parse_items_round(l, rest);
        assert(parse_items(s1) == Some((l, rest)));
        assert(rest[0] == ']');
        assert(rest.skip(1) =~= Seq::<char>::empty());
        assert(skip_ws(Seq::<char>::empty()).len() == 0);
    }
}

// ---------------------------------------------------------------------
// The executable serializer.
// ---------------------------------------------------------------------
proof fn lemma_ser_items_snoc(l: Seq<OfferV>, o: OfferV)
    requires
        l.len() >= 1,
    ensures
        ser_items(l.push(o)) == ser_items(l) + seq![','] + ser_offer(o),
    decreases l.len(),
{
    if l.len() == 1 {
        assert(l.push(o)[0] == l[0]);
        assert(l.push(o).skip(1) =~= seq![o]);
        assert(ser_items(seq![o]) == ser_offer(o));
        assert(ser_items(l.push(o)) =~= ser_items(l) + seq![','] + ser_offer(o));
    } else {
        assert(l.push(o)[0] == l[0]);
        assert(l.push(o).skip(1) =~= l.skip(1).push(o));
        lemma_ser_items_snoc(l.skip(1), o);
        assert(ser_items(l.push(o)) =~= ser_items(l) + seq![','] + ser_offer(o));
    }
}

/// Appends the escaped form of `s` to `out`.
fn escape_into(out: &mut Vec<char>, s: &str)
    ensures
        final(out)@ == old(out)@ + esc(s@),
{
    let v = chars_of(s);
    let mut i: usize = 0;
    proof {
        assert(v@.skip(0) =~= v@);
    }
    while i < v.len()
        invariant
            i <= v@.len(),
            v@ == s@,
            old(out)@ + esc(v@) == out@ + esc(v@.skip(i as int)),
        decreases v@.len() - i,
    {
        proof {
            assert(v@.skip(i as int)[0] == v@[i as int]);
            assert(v@.skip(i as int).skip(1) =~= v@.skip(i + 1 as int));
        }
        let ghost pre = out@;
        let c = v[i];
        if c == '"' || c == '\\' {
            out.push('\\');
            out.push(c);
            proof {
                assert(out@ =~= pre + seq!['\\', v@[i as int]]);
                assert(pre + (seq!['\\', v@[i as int]] + esc(v@.skip(i + 1 as int))) =~= out@
                    + esc(v@.skip(i + 1 as int)));
            }
        } else {
            out.push(c);
            proof {
                assert(out@ =~= pre + seq![v@[i as int]]);
                assert(pre + (seq![v@[i as int]] + esc(v@.skip(i + 1 as int))) =~= out@ + esc(
                    v@.skip(i + 1 as int),
                ));
            }
        }
        i = i + 1;
    }
    proof {
        assert(v@.skip(v@.len() as int) =~= Seq::<char>::empty());
        assert(out@ + Seq::<char>::empty() =~= out@);
    }
}

/// Appends the string token for `s` to `out`.
fn ser_string_into(out: &mut Vec<char>, s: &str)
    ensures
        final(out)@ == old(out)@ + ser_string(s@),
{
    out.push('"');
    escape_into(out, s);
    out.push('"');
    proof {
        assert(old(out)@ + ser_string(s@) =~= (old(out)@.push('"') + esc(s@)).push('"'));
    }
}

/// Appends the `"key":"value"` member to `out`.
fn ser_field_into(out: &mut Vec<char>, key: &str, val: &str)
    ensures
        final(out)@ == old(out)@ + ser_field(key@, val@),
{
    ser_string_into(out, key);
    out.push(':');
    ser_string_into(out, val);
    proof {
        assert(old(out)@ + ser_field(key@, val@) =~= ((old(out)@ + ser_string(key@)).push(':'))
            + ser_string(val@));
    }
}

/// Appends the object form of `o` to `out`.
fn ser_offer_into(out: &mut Vec<char>, o: &Offer)
    ensures
        final(out)@ == old(out)@ + ser_offer(o@),
{
    out.push('{');
    ser_field_into(out, "id", o.id.as_str());
    out.push(',');
    ser_field_into(out, "link", o.link.as_str());
    out.push(',');
    ser_field_into(out, "address", o.address.as_str());
    out.push(',');
    ser_field_into(out, "room_type", o.room_type.as_str());
    out.push(',');
    ser_field_into(out, "cost", o.cost.as_str());
    out.push(',');
    ser_field_into(out, "n_rooms", o.n_rooms.as_str());
    out.push(',');
    ser_field_into(out, "size", o.size.as_str());
    out.push('}');
    proof {
        assert(old(out)@ + ser_offer(o@) =~= (((((((((((((old(out)@.push('{') + ser_field(
            key_id(),
            o@.id,
        )).push(',') + ser_field(key_link(), o@.link)).push(',') + ser_field(
            key_address(),
            o@.address,
        )).push(',') + ser_field(key_room_type(), o@.room_type)).push(',') + ser_field(
            key_cost(),
            o@.cost,
        )).push(',') + ser_field(key_n_rooms(), o@.n_rooms)).push(',') + ser_field(
            key_size(),
            o@.size,
        )).push('}'))))))));
    }
}

impl Offer {
    /// The offer as one JSON object in the cache format.
    pub fn to_json(&self) -> (r: String)
        ensures
            r@ == ser_offer(self@),
    {
        let mut out: Vec<char> = Vec::new();
        ser_offer_into(&mut out, self);
        proof {
            assert(Seq::<char>::empty() + ser_offer(self@) =~= ser_offer(self@));
        }
        string_from_chars(&out)
    }
}

/// Serializes the whole offer list into the cache text, in order.
pub fn cache_json(offers: &Vec<Offer>) -> (r: String)
    ensures
        r@ == ser_cache(offers_view(offers@)),
{
    let ghost l = offers_view(offers@);
    let mut out: Vec<char> = Vec::new();
    out.push('[');
    let mut i: usize = 0;
    while i < offers.len()
        invariant
            i <= offers@.len(),
            l == offers_view(offers@),
            i == 0 ==> out@ == seq!['['],
            i >= 1 ==> out@ == seq!['['] + ser_items(l.take(i as int)),
        decreases offers@.len() - i,
    {
        let ghost pre = out@;
        if i > 0 {
            out.push(',');
        }
        ser_offer_into(&mut out, &offers[i]);
        proof {
            assert(l[i as int] == offers@[i as int]@);
            if i == 0 {
                assert(l.take(1)[0] == l[0]);
                assert(ser_items(l.take(1)) == ser_offer(l[0]));
                assert(out@ =~= seq!['['] + ser_items(l.take(1)));
            } else {
                lemma_ser_items_snoc(l.take(i as int), l[i as int]);
                assert(l.take(i as int).push(l[i as int]) =~= l.take(i + 1 as int));
                assert(out@ =~= (pre.push(',')) + ser_offer(l[i as int]));
                assert(out@ =~= seq!['['] + ser_items(l.take(i + 1 as int)));
            }
        }
        i = i + 1;
    }
    out.push(']');
    proof {
        if offers@.len() == 0 {
            assert(out@ =~= ser_cache(l));
        } else {
            assert(l.take(l.len() as int) =~= l);
            assert(out@ =~= seq!['['] + ser_items(l) + seq![']']);
        }
    }
    string_from_chars(&out)
}

// ---------------------------------------------------------------------
// The executable parser.
// ---------------------------------------------------------------------
fn is_ws_char(c: char) -> (b: bool)
    ensures
        b == is_ws(c),
{
    c == ' ' || c == '\t' || c == '\n' || c == '\r'
}

/// Advances past leading whitespace: afterwards the unread suffix is
/// `skip_ws` of the suffix at `i`.
fn skip_ws_at(v: &Vec<char>, i: usize) -> (j: usize)
    requires
        i <= v@.len(),
    ensures
        i <= j <= v@.len(),
        skip_ws(v@.skip(i as int)) == v@.skip(j as int),
{
    let mut j: usize = i;
    while j < v.len() && is_ws_char(v[j])
        invariant
            i <= j <= v@.len(),
            skip_ws(v@.skip(i as int)) == skip_ws(v@.skip(j as int)),
        decreases v@.len() - j,
    {
        proof {
            assert(v@.skip(j as int)[0] == v@[j as int]);
            assert(v@.skip(j as int).skip(1) =~= v@.skip(j + 1 as int));
        }
        j = j + 1;
    }
    proof {
        if j < v@.len() {
            assert(v@.skip(j as int)[0] == v@[j as int]);
        }
        assert(skip_ws(v@.skip(j as int)) == v@.skip(j as int));
    }
    j
}

/// True when the two string slices hold the same characters.
fn str_eq_str(a: &str, b: &str) -> (r: bool)
    ensures
        r == (a@ == b@),
{
    let va = chars_of(a);
    let vb = chars_of(b);
    if va.len() != vb.len() {
        proof {
            assert(a@ != b@);
        }
        return false;
    }
    let mut i: usize = 0;
    while i < va.len()
        invariant
            i <= va@.len(),
            va@ == a@,
            vb@ == b@,
            va@.len() == vb@.len(),
            forall|k: int| 0 <= k < i ==> va@[k] == vb@[k],
        decreases va@.len() - i,
    {
        if va[i] != vb[i] {
            proof {
                assert(a@[i as int] != b@[i as int]);
            }
            return false;
        }
        i = i + 1;
    }
    proof {
        assert(a@ =~= b@);
    }
    true
}

/// Relies on `char::from_u32`: `Some` exactly for Unicode scalar values,
/// and then the character with that code.
#[verifier::external_body]
fn char_from_u32(u: u32) -> (r: Option<char>)
    ensures
        r is Some <==> (u < 0xD800 || (0xE000 <= u && u <= 0x10FFFF)),
        r is Some ==> r->Some_0 == u as char,
{
    char::from_u32(u)
}

/// The value of one hexadecimal digit.
fn hex_val_e(c: char) -> (r: Option<u32>)
    ensures
        r is Some <==> hex_val(c) >= 0,
        r is Some ==> r->Some_0 as int == hex_val(c),
{
    match c {
        '0' => Some(0),
        '1' => Some(1),
        '2' => Some(2),
        '3' => Some(3),
        '4' => Some(4),
        '5' => Some(5),
        '6' => Some(6),
        '7' => Some(7),
        '8' => Some(8),
        '9' => Some(9),
        'a' => Some(10),
        'b' => Some(11),
        'c' => Some(12),
        'd' => Some(13),
        'e' => Some(14),
        'f' => Some(15),
        'A' => Some(10),
        'B' => Some(11),
        'C' => Some(12),
        'D' => Some(13),
        'E' => Some(14),
        'F' => Some(15),
        _ => None,
    }
}

/// The value of four hexadecimal digits.
fn hex4_e(a: char, b: char, c: char, d: char) -> (r: Option<u32>)
    ensures
        r is Some <==> hex4(a, b, c, d) >= 0,
        r is Some ==> r->Some_0 as int == hex4(a, b, c, d),
{
    match (hex_val_e(a), hex_val_e(b), hex_val_e(c), hex_val_e(d)) {
        (Some(x), Some(y), Some(z), Some(w)) => Some(x * 4096 + y * 256 + z * 16 + w),
        _ => None,
    }
}

/// Reads one `\uXXXX` escape whose backslash stands at `j`.
#[verifier::rlimit(100)]
#[verifier::spinoff_prover]
fn parse_u_escape_at(v: &Vec<char>, j: usize) -> (r: Option<(char, usize)>)
    requires
        j <= v@.len(),
    ensures
        r is Some <==> parse_u_escape(v@.skip(j as int)) is Some,
        r is Some ==> {
            &&& r->Some_0.0 == parse_u_escape(v@.skip(j as int))->Some_0.0
            &&& r->Some_0.1 as int == parse_u_escape(v@.skip(j as int))->Some_0.1
            &&& j + r->Some_0.1 <= v@.len()
        },
{
    let ghost sj = v@.skip(j as int);
    if v.len() - j < 6 {
        return None;
    }
    proof {
        assert(sj[2] == v@[j + 2 as int]);
        assert(sj[3] == v@[j + 3 as int]);
        assert(sj[4] == v@[j + 4 as int]);
        assert(sj[5] == v@[j + 5 as int]);
    }
    let h = match hex4_e(v[j + 2], v[j + 3], v[j + 4], v[j + 5]) {
        Some(x) => x,
        None => {
            return None;
        },
    };
    if 0xD800 <= h && h < 0xDC00 {
        if v.len() - j >= 12 && v[j + 6] == '\\' && v[j + 7] == 'u' {
            proof {
                assert(sj[6] == v@[j + 6 as int]);
                assert(sj[7] == v@[j + 7 as int]);
                assert(sj[8] == v@[j + 8 as int]);
                assert(sj[9] == v@[j + 9 as int]);
                assert(sj[10] == v@[j + 10 as int]);
                assert(sj[11] == v@[j + 11 as int]);
            }
            let lo = match hex4_e(v[j + 8], v[j + 9], v[j + 10], v[j + 11]) {
                Some(x) => x,
                None => {
                    return None;
                },
            };
            if 0xDC00 <= lo && lo < 0xE000 {
                let code: u32 = 0x10000 + (h - 0xD800) * 0x400 + (lo - 0xDC00);
                match char_from_u32(code) {
                    Some(ch) => {
                        proof {
                            assert(code as int == 0x10000 + (hex4(sj[2], sj[3], sj[4], sj[5])
                                - 0xD800) * 0x400 + (hex4(sj[8], sj[9], sj[10], sj[11]) - 0xDC00));
                        }
                        Some((ch, 12))
                    },
                    None => {
                        proof {
                            assert(false);
                        }
                        None
                    },
                }
            } else {
                return None;
            }
        } else {
            proof {
                if v@.len() - j >= 12 {
                    assert(sj[6] == v@[j + 6 as int]);
                    assert(sj[7] == v@[j + 7 as int]);
                }
            }
            return None;
        }
    } else if 0xDC00 <= h && h < 0xE000 {
        return None;
    } else {
        match char_from_u32(h) {
            Some(ch) => Some((ch, 6)),
            None => {
                proof {
                    assert(false);
                }
                None
            },
        }
    }
}

/// Shape of a partial string-body parse: what the whole body yields once
/// `acc` has already been unescaped.
spec fn psb_ctx(acc: Seq<char>, s: Seq<char>) -> Option<(Seq<char>, Seq<char>)> {
    match parse_str_body(s) {
        Some(p) => Some((acc + p.0, p.1)),
        None => None,
    }
}

/// Reads a string body starting at `i` (just past the opening quote),
/// returning the unescaped text and the position just past the closing
/// quote.
#[verifier::rlimit(100)]
#[verifier::spinoff_prover]
fn parse_str_body_at(v: &Vec<char>, i: usize) -> (r: Option<(String, usize)>)
    requires
        i <= v@.len(),
    ensures
        r is Some <==> parse_str_body(v@.skip(i as int)) is Some,
        r is Some ==> {
            &&& r->Some_0.0@ == parse_str_body(v@.skip(i as int))->Some_0.0
            &&& i < r->Some_0.1 <= v@.len()
            &&& v@.skip(r->Some_0.1 as int) == parse_str_body(v@.skip(i as int))->Some_0.1
        },
{
    let mut out: Vec<char> = Vec::new();
    let mut j: usize = i;
    proof {
        assert(Seq::<char>::empty() + parse_str_body(v@.skip(i as int))->Some_0.0
            =~= parse_str_body(v@.skip(i as int))->Some_0.0);
    }
    while j < v.len()
        invariant
            i <= j <= v@.len(),
            psb_ctx(out@, v@.skip(j as int)) == parse_str_body(v@.skip(i as int)),
        decreases v@.len() - j,
    {
        let ghost pre = out@;
        let ghost sj = v@.skip(j as int);
        proof {
            assert(sj[0] == v@[j as int]);
            assert(sj.skip(1) =~= v@.skip(j + 1 as int));
        }
        let c = v[j];
        if c == '"' {
            proof {
                assert(parse_str_body(sj) == Some((Seq::<char>::empty(), v@.skip(j + 1 as int))));
                assert(pre + Seq::<char>::empty() =~= pre);
            }
            return Some((string_from_chars(&out), j + 1));
        } else if c == '\\' {
            if j + 1 == v.len() {
                proof {
                    assert(sj.len() == 1);
                    assert(parse_str_body(sj) is None);
                }
                return None;
            }
            let c2 = v[j + 1];
            proof {
                assert(sj.len() >= 2);
                assert(sj[1] == v@[j + 1 as int]);
                assert(sj.skip(2) =~= v@.skip(j + 2 as int));
            }
            if c2 == 'u' {
                let (decoded, adv) = match parse_u_escape_at(v, j) {
                    Some(t) => t,
                    None => {
                        proof {
                            assert(parse_str_body(sj) is None);
                        }
                        return None;
                    },
                };
                out.push(decoded);
                proof {
                    assert(sj.skip(adv as int) =~= v@.skip(j + adv));
                    assert(parse_str_body(sj) == psb_cons(
                        decoded,
                        parse_str_body(v@.skip(j + adv)),
                    ));
                    let rec = parse_str_body(v@.skip(j + adv));
                    if rec is Some {
                        assert(pre + (seq![decoded] + rec->Some_0.0) =~= pre.push(decoded)
                            + rec->Some_0.0);
                    }
                    assert(psb_ctx(out@, v@.skip(j + adv)) == parse_str_body(v@.skip(i as int)));
                }
                j = j + adv;
            } else if c2 == '"' || c2 == '\\' || c2 == '/' || c2 == 'b' || c2 == 'f' || c2 == 'n'
                || c2 == 'r' || c2 == 't' {
                let decoded: char = if c2 == '"' || c2 == '\\' || c2 == '/' {
                    c2
                } else if c2 == 'b' {
                    '\u{8}'
                } else if c2 == 'f' {
                    '\u{c}'
                } else if c2 == 'n' {
                    '\n'
                } else if c2 == 'r' {
                    '\r'
                } else {
                    '\t'
                };
                out.push(decoded);
                proof {
                    assert(parse_str_body(sj) == psb_cons(
                        decoded,
                        parse_str_body(v@.skip(j + 2 as int)),
                    ));
                    let rec = parse_str_body(v@.skip(j + 2 as int));
                    if rec is Some {
                        assert(pre + (seq![decoded] + rec->Some_0.0) =~= pre.push(decoded)
                            + rec->Some_0.0);
                    }
                    assert(psb_ctx(out@, v@.skip(j + 2 as int)) == parse_str_body(
                        v@.skip(i as int),
                    ));
                }
                j = j + 2;
            } else {
                proof {
                    assert(parse_str_body(sj) is None);
                }
                return None;
            }
        } else {
            out.push(c);
            proof {
                let rec = parse_str_body(v@.skip(j + 1 as int));
                if rec is Some {
                    assert(pre + (seq![v@[j as int]] + rec->Some_0.0) =~= pre.push(v@[j as int])
                        + rec->Some_0.0);
                }
                assert(psb_ctx(out@, v@.skip(j + 1 as int)) == parse_str_body(v@.skip(i as int)));
            }
            j = j + 1;
        }
    }
    proof {
        assert(v@.skip(j as int).len() == 0);
        assert(parse_str_body(v@.skip(j as int)) is None);
    }
    None
}

/// Reads a whole string token starting at `i`.
fn parse_string_at(v: &Vec<char>, i: usize) -> (r: Option<(String, usize)>)
    requires
        i <= v@.len(),
    ensures
        r is Some <==> parse_string(v@.skip(i as int)) is Some,
        r is Some ==> {
            &&& r->Some_0.0@ == parse_string(v@.skip(i as int))->Some_0.0
            &&& i < r->Some_0.1 <= v@.len()
            &&& v@.skip(r->Some_0.1 as int) == parse_string(v@.skip(i as int))->Some_0.1
        },
{
    if i < v.len() && v[i] == '"' {
        proof {
            assert(v@.skip(i as int)[0] == v@[i as int]);
            assert(v@.skip(i as int).skip(1) =~= v@.skip(i + 1 as int));
        }
        parse_str_body_at(v, i + 1)
    } else {
        proof {
            if i < v@.len() {
                assert(v@.skip(i as int)[0] == v@[i as int]);
            }
        }
        None
    }
}

/// Reads one `"key":"value"` member: its key, its value, and the next
/// position.
fn parse_member_at(v: &Vec<char>, i: usize) -> (r: Option<(String, String, usize)>)
    requires
        i <= v@.len(),
    ensures
        r is Some <==> parse_member(v@.skip(i as int)) is Some,
        r is Some ==> {
            &&& r->Some_0.0@ == parse_member(v@.skip(i as int))->Some_0.0.0
            &&& r->Some_0.1@ == parse_member(v@.skip(i as int))->Some_0.0.1
            &&& i < r->Some_0.2 <= v@.len()
            &&& v@.skip(r->Some_0.2 as int) == parse_member(v@.skip(i as int))->Some_0.1
        },
{
    let j0 = skip_ws_at(v, i);
    let (k, j1) = match parse_string_at(v, j0) {
        Some(p) => p,
        None => {
            return None;
        },
    };
    let j2 = skip_ws_at(v, j1);
    if j2 < v.len() && v[j2] == ':' {
        proof {
            assert(v@.skip(j2 as int)[0] == v@[j2 as int]);
            assert(v@.skip(j2 as int).skip(1) =~= v@.skip(j2 + 1 as int));
        }
        let j3 = skip_ws_at(v, j2 + 1);
        match parse_string_at(v, j3) {
            Some((val, j4)) => Some((k, val, j4)),
            None => None,
        }
    } else {
        proof {
            if j2 < v@.len() {
                assert(v@.skip(j2 as int)[0] == v@[j2 as int]);
            }
        }
        None
    }
}

/// An offer object while its members are being read.
struct PartialOffer {
    id: Option<String>,
    link: Option<String>,
    address: Option<String>,
    room_type: Option<String>,
    cost: Option<String>,
    n_rooms: Option<String>,
    size: Option<String>,
}

impl View for PartialOffer {
    type V = PartialV;

    closed spec fn view(&self) -> PartialV {
        PartialV {
            id: match self.id {
                Some(s) => Some(s@),
                None => None,
            },
            link: match self.link {
                Some(s) => Some(s@),
                None => None,
            },
            address: match self.address {
                Some(s) => Some(s@),
                None => None,
            },
            room_type: match self.room_type {
                Some(s) => Some(s@),
                None => None,
            },
            cost: match self.cost {
                Some(s) => Some(s@),
                None => None,
            },
            n_rooms: match self.n_rooms {
                Some(s) => Some(s@),
                None => None,
            },
            size: match self.size {
                Some(s) => Some(s@),
                None => None,
            },
        }
    }
}

/// Records one member into the accumulator, mirroring [`set_field`].
fn acc_set(acc: &mut PartialOffer, key: &String, val: String) -> (ok: bool)
    ensures
        ok <==> set_field(old(acc)@, key@, val@) is Some,
        ok ==> final(acc)@ == set_field(old(acc)@, key@, val@)->Some_0,
{
    if str_eq_str(key.as_str(), "id") {
        if acc.id.is_none() {
            acc.id = Some(val);
            true
        } else {
            false
        }
    } else if str_eq_str(key.as_str(), "link") {
        if acc.link.is_none() {
            acc.link = Some(val);
            true
        } else {
            false
        }
    } else if str_eq_str(key.as_str(), "address") {
        if acc.address.is_none() {
            acc.address = Some(val);
            true
        } else {
            false
        }
    } else if str_eq_str(key.as_str(), "room_type") {
        if acc.room_type.is_none() {
            acc.room_type = Some(val);
            true
        } else {
            false
        }
    } else if str_eq_str(key.as_str(), "cost") {
        if acc.cost.is_none() {
            acc.cost = Some(val);
            true
        } else {
            false
        }
    } else if str_eq_str(key.as_str(), "n_rooms") {
        if acc.n_rooms.is_none() {
            acc.n_rooms = Some(val);
            true
        } else {
            false
        }
    } else if str_eq_str(key.as_str(), "size") {
        if acc.size.is_none() {
            acc.size = Some(val);
            true
        } else {
            false
        }
    } else {
        false
    }
}

/// Reads one offer object starting at `i`.
fn parse_offer_obj_at(v: &Vec<char>, i: usize) -> (r: Option<(Offer, usize)>)
    requires
        i <= v@.len(),
    ensures
        r is Some <==> parse_offer_obj(v@.skip(i as int)) is Some,
        r is Some ==> {
            &&& r->Some_0.0@ == parse_offer_obj(v@.skip(i as int))->Some_0.0
            &&& i < r->Some_0.1 <= v@.len()
            &&& v@.skip(r->Some_0.1 as int) == parse_offer_obj(v@.skip(i as int))->Some_0.1
        },
{
    let j = skip_ws_at(v, i);
    if !(j < v.len() && v[j] == '{') {
        proof {
            if j < v@.len() {
                assert(v@.skip(j as int)[0] == v@[j as int]);
            }
        }
        return None;
    }
    proof {
        assert(v@.skip(j as int)[0] == v@[j as int]);
        assert(v@.skip(j as int).skip(1) =~= v@.skip(j + 1 as int));
    }
    let ghost start: int = j as int + 1;
    let mut acc = PartialOffer {
        id: None,
        link: None,
        address: None,
        room_type: None,
        cost: None,
        n_rooms: None,
        size: None,
    };
    let mut cur: usize = j + 1;
    let mut k: usize = 0;
    proof {
        assert(acc@ =~= empty_partial());
    }
    while k < 6
        invariant
            k <= 6,
            i < cur <= v@.len(),
            parse_members(v@.skip(start), 7, empty_partial()) == parse_members(
                v@.skip(cur as int),
                (7 - k) as nat,
                acc@,
            ),
            parse_offer_obj(v@.skip(i as int)) == (match parse_members(
                v@.skip(start),
                7,
                empty_partial(),
            ) {
                None => None::<(OfferV, Seq<char>)>,
                Some(pm) => match expect(skip_ws(pm.1), '}') {
                    None => None,
                    Some(r8) => if pm.0.id is Some && pm.0.link is Some && pm.0.address is Some
                        && pm.0.room_type is Some && pm.0.cost is Some && pm.0.n_rooms is Some
                        && pm.0.size is Some {
                        Some(
                            (
                                OfferV {
                                    id: pm.0.id->Some_0,
                                    link: pm.0.link->Some_0,
                                    address: pm.0.address->Some_0,
                                    room_type: pm.0.room_type->Some_0,
                                    cost: pm.0.cost->Some_0,
                                    n_rooms: pm.0.n_rooms->Some_0,
                                    size: pm.0.size->Some_0,
                                },
                                r8,
                            ),
                        )
                    } else {
                        None
                    },
                },
            }),
        decreases 6 - k,
    {
        let (key, val, n1) = match parse_member_at(v, cur) {
            Some(t) => t,
            None => {
                proof {
                    assert(parse_members(v@.skip(cur as int), (7 - k) as nat, acc@) is None);
                }
                return None;
            },
        };
        let ghost accv = acc@;
        let ok = acc_set(&mut acc, &key, val);
        if !ok {
            proof {
                assert(parse_members(v@.skip(cur as int), (7 - k) as nat, accv) is None);
            }
            return None;
        }
        let jc = skip_ws_at(v, n1);
        if jc < v.len() && v[jc] == ',' {
            proof {
                assert(v@.skip(jc as int)[0] == v@[jc as int]);
                assert(v@.skip(jc as int).skip(1) =~= v@.skip(jc + 1 as int));
                assert(parse_members(v@.skip(cur as int), (7 - k) as nat, accv) == parse_members(
                    v@.skip(jc + 1 as int),
                    (6 - k) as nat,
                    acc@,
                ));
            }
            cur = jc + 1;
            k = k + 1;
        } else {
            proof {
                if jc < v@.len() {
                    assert(v@.skip(jc as int)[0] == v@[jc as int]);
                }
                assert(parse_members(v@.skip(cur as int), (7 - k) as nat, accv) is None);
            }
            return None;
        }
    }
    let (key, val, n1) = match parse_member_at(v, cur) {
        Some(t) => t,
        None => {
            proof {
                assert(parse_members(v@.skip(cur as int), 1, acc@) is None);
            }
            return None;
        },
    };
    let ghost accv = acc@;
    let ok = acc_set(&mut acc, &key, val);
    if !ok {
        proof {
            assert(parse_members(v@.skip(cur as int), 1, accv) is None);
        }
        return None;
    }
    proof {
        assert(parse_members(v@.skip(cur as int), 1, accv) == Some((acc@, v@.skip(n1 as int))));
    }
    let j7 = skip_ws_at(v, n1);
    if j7 < v.len() && v[j7] == '}' {
        proof {
            assert(v@.skip(j7 as int)[0] == v@[j7 as int]);
            assert(v@.skip(j7 as int).skip(1) =~= v@.skip(j7 + 1 as int));
        }
        let ghost final_acc = acc@;
        let f_id = match acc.id {
            Some(x) => x,
            None => {
                return None;
            },
        };
        let f_link = match acc.link {
            Some(x) => x,
            None => {
                return None;
            },
        };
        let f_address = match acc.address {
            Some(x) => x,
            None => {
                return None;
            },
        };
        let f_room_type = match acc.room_type {
            Some(x) => x,
            None => {
                return None;
            },
        };
        let f_cost = match acc.cost {
            Some(x) => x,
            None => {
                return None;
            },
        };
        let f_n_rooms = match acc.n_rooms {
            Some(x) => x,
            None => {
                return None;
            },
        };
        let f_size = match acc.size {
            Some(x) => x,
            None => {
                return None;
            },
        };
        let fields = vec![f_id, f_link, f_address, f_room_type, f_cost, f_n_rooms, f_size];
        let offer = Offer::new(fields);
        proof {
            assert(offer@ =~= parse_offer_obj(v@.skip(i as int))->Some_0.0);
        }
        Some((offer, j7 + 1))
    } else {
        proof {
            if j7 < v@.len() {
                assert(v@.skip(j7 as int)[0] == v@[j7 as int]);
            }
        }
        None
    }
}

/// Shape of a partial list parse: what the whole list yields once `acc`
/// has already been read.
spec fn pitems_ctx(acc: Seq<OfferV>, s: Seq<char>) -> Option<(Seq<OfferV>, Seq<char>)> {
    match parse_items(s) {
        Some(p) => Some((acc + p.0, p.1)),
        None => None,
    }
}

/// Reads one or more comma-separated offer objects starting at `i`.
#[verifier::rlimit(100)]
#[verifier::spinoff_prover]
fn parse_items_at(v: &Vec<char>, i: usize) -> (r: Option<(Vec<Offer>, usize)>)
    requires
        i <= v@.len(),
    ensures
        r is Some <==> parse_items(v@.skip(i as int)) is Some,
        r is Some ==> {
            &&& offers_view(r->Some_0.0@) == parse_items(v@.skip(i as int))->Some_0.0
            &&& i < r->Some_0.1 <= v@.len()
            &&& v@.skip(r->Some_0.1 as int) == parse_items(v@.skip(i as int))->Some_0.1
        },
{
    let mut out: Vec<Offer> = Vec::new();
    let mut cur: usize = i;
    proof {
        assert(offers_view(Seq::<Offer>::empty()) =~= Seq::<OfferV>::empty());
        if parse_items(v@.skip(i as int)) is Some {
            assert(Seq::<OfferV>::empty() + parse_items(v@.skip(i as int))->Some_0.0
                =~= parse_items(v@.skip(i as int))->Some_0.0);
        }
    }
    loop
        invariant
            i <= cur <= v@.len(),
            i == cur ==> out@.len() == 0,
            out@.len() > 0 ==> i < cur,
            pitems_ctx(offers_view(out@), v@.skip(cur as int)) == parse_items(v@.skip(i as int)),
        decreases v@.len() - cur,
    {
        let ghost acc = offers_view(out@);
        let (off, n1) = match parse_offer_obj_at(v, cur) {
            Some(p) => p,
            None => {
                return None;
            },
        };
        out.push(off);
        proof {
            assert(offers_view(out@) =~= acc.push(off@));
        }
        let j = skip_ws_at(v, n1);
        if j < v.len() && v[j] == ',' {
            proof {
                let scur = v@.skip(cur as int);
                let rec = parse_items(v@.skip(j + 1 as int));
                assert(v@.skip(j as int)[0] == v@[j as int]);
                assert(v@.skip(j as int).skip(1) =~= v@.skip(j + 1 as int));
                if rec is Some {
                    assert(acc + (seq![off@] + rec->Some_0.0) =~= acc.push(off@) + rec->Some_0.0);
                }
                assert(pitems_ctx(offers_view(out@), v@.skip(j + 1 as int)) == parse_items(
                    v@.skip(i as int),
                ));
            }
            cur = j + 1;
        } else {
            proof {
                let scur = v@.skip(cur as int);
                if j < v@.len() {
                    assert(v@.skip(j as int)[0] == v@[j as int]);
                }
                assert(parse_items(scur) == Some(
                    (seq![off@], parse_offer_obj(scur)->Some_0.1),
                ));
                assert(acc + seq![off@] =~= acc.push(off@));
            }
            return Some((out, n1));
        }
    }
}

/// Parses the whole cache text: the offer array with nothing but
/// whitespace around it.
pub fn parse_cache(s: &str) -> (r: Option<Vec<Offer>>)
    ensures
        r is Some <==> parse_cache_spec(s@) is Some,
        r is Some ==> offers_view(r->Some_0@) == parse_cache_spec(s@)->Some_0,
{
    let v = chars_of(s);
    proof {
        assert(v@.skip(0) =~= v@);
    }
    let i0 = skip_ws_at(&v, 0);
    if !(i0 < v.len() && v[i0] == '[') {
        proof {
            if i0 < v@.len() {
                assert(v@.skip(i0 as int)[0] == v@[i0 as int]);
            }
        }
        return None;
    }
    proof {
        assert(v@.skip(i0 as int)[0] == v@[i0 as int]);
        assert(v@.skip(i0 as int).skip(1) =~= v@.skip(i0 + 1 as int));
    }
    let i1 = i0 + 1;
    let i2 = skip_ws_at(&v, i1);
    if i2 < v.len() && v[i2] == ']' {
        proof {
            assert(v@.skip(i2 as int)[0] == v@[i2 as int]);
            assert(v@.skip(i2 as int).skip(1) =~= v@.skip(i2 + 1 as int));
        }
        let i3 = skip_ws_at(&v, i2 + 1);
        if i3 == v.len() {
            let empty_out: Vec<Offer> = Vec::new();
            proof {
                assert(offers_view(empty_out@) =~= Seq::<OfferV>::empty());
            }
            return Some(empty_out);
        } else {
            return None;
        }
    }
    proof {
        if i2 < v@.len() {
            assert(v@.skip(i2 as int)[0] == v@[i2 as int]);
        }
    }
    let (out, rpos) = match parse_items_at(&v, i1) {
        Some(p) => p,
        None => {
            return None;
        },
    };
    let j = skip_ws_at(&v, rpos);
    if j < v.len() && v[j] == ']' {
        proof {
            assert(v@.skip(j as int)[0] == v@[j as int]);
            assert(v@.skip(j as int).skip(1) =~= v@.skip(j + 1 as int));
        }
        let j2 = skip_ws_at(&v, j + 1);
        if j2 == v.len() {
            Some(out)
        } else {
            None
        }
    } else {
        proof {
            if j < v@.len() {
                assert(v@.skip(j as int)[0] == v@[j as int]);
            }
        }
        None
    }
}

/// Why reading the cache failed: the file was present but did not parse.
#[derive(Debug, PartialEq, Eq)]
pub enum CacheError {
    Malformed,
}

/// Interprets the cache as found on disk: an absent file stands for "no
/// prior data" and yields the empty list, while a present but malformed
/// file is a fatal parse error.
pub fn load_cache(content: Option<&str>) -> (r: Result<Vec<Offer>, CacheError>)
    ensures
        content is None ==> r is Ok && r->Ok_0@.len() == 0,
        content is Some ==> (r is Ok <==> parse_cache_spec(content->Some_0@) is Some),
        content is Some && r is Ok ==> offers_view(r->Ok_0@) == parse_cache_spec(
            content->Some_0@,
        )->Some_0,
        r is Err <==> content is Some && parse_cache_spec(content->Some_0@) is None,
        r is Err ==> r->Err_0 == CacheError::Malformed,
{
    match content {
        None => Ok(Vec::new()),
        Some(s) => match parse_cache(s) {
            Some(l) => Ok(l),
            None => Err(CacheError::Malformed),
        },
    }
}

} // verus!
