//! Hop-by-hop header handling for forwarded requests and responses.

use vstd::prelude::*;
use vstd::string::*;
use axum::http::{HeaderMap, HeaderValue};
use crate::text::{
    ascii_lower, chars_are, chars_of, contains_chars, contains_seq, lower_chars, split_commas,
    split_commas_chars, string_of, trim, trim_chars,
};

verus! {

#[verifier::external_type_specification]
#[verifier::external_body]
#[verifier::reject_recursive_types(T)]
pub struct ExHeaderMap<T>(HeaderMap<T>);

#[verifier::external_type_specification]
#[verifier::external_body]
pub struct ExHeaderValue(HeaderValue);

/// The contents of a header map: each header name (lower case, as
/// `HeaderName::as_str` gives it) with its values in order, first value
/// first.
pub uninterp spec fn header_fields(map: HeaderMap) -> Map<Seq<char>, Seq<Seq<u8>>>;

/// A header name written with lower-case letters, digits and `-` only.
pub open spec fn plain_header_name(name: Seq<char>) -> bool {
    &&& name.len() > 0
    &&& forall|i: int| 0 <= i < name.len() ==> {
        let c = #[trigger] name[i];
        ('a' <= c && c <= 'z') || ('0' <= c && c <= '9') || c == '-'
    }
}

/// The bytes `HeaderValue::to_str` accepts: visible ASCII and tab.
pub open spec fn visible_ascii(bytes: Seq<u8>) -> bool {
    forall|i: int| 0 <= i < bytes.len() ==> {
        let b = #[trigger] bytes[i];
        (32 <= b && b < 127) || b == 9
    }
}

pub open spec fn ascii_text(bytes: Seq<u8>) -> Seq<char> {
    bytes.map_values(|b: u8| b as char)
}

/// The first value of a header as text: `None` when the header is absent or
/// its first value is not visible ASCII.
pub open spec fn header_text_of(fields: Map<Seq<char>, Seq<Seq<u8>>>, name: Seq<char>) -> Option<Seq<char>> {
    if fields.contains_key(name) && fields[name].len() > 0 && visible_ascii(fields[name][0]) {
        Some(ascii_text(fields[name][0]))
    } else {
        None
    }
}

/// `HeaderMap::get` followed by `HeaderValue::to_str`: the first value of
/// the header `name` when it is present and visible ASCII.
#[verifier::external_body]
fn header_text(map: &HeaderMap, name: &str) -> (r: Option<String>)
    requires
        plain_header_name(name@),
    ensures
        match r {
            Some(t) => header_text_of(header_fields(*map), name@) == Some(t@),
            None => header_text_of(header_fields(*map), name@) is None,
        },
{
    match map.get(name) {
        Some(v) => match v.to_str() {
            Ok(t) => Some(t.to_string()),
            Err(_) => None,
        },
        None => None,
    }
}

/// `HeaderMap::keys`: every header name of the map, once each, as
/// `HeaderName::as_str` gives it (in lower case).
#[verifier::external_body]
fn header_names(map: &HeaderMap) -> (r: Vec<String>)
    ensures
        r@.map_values(|s: String| s@).no_duplicates(),
        forall|t: int| 0 <= t < r@.len() ==> (#[trigger] r@[t])@ == ascii_lower(r@[t]@),
        r@.map_values(|s: String| s@).to_set() == header_fields(*map).dom(),
{
    let mut r: Vec<String> = Vec::new();
    for k in map.keys() {
        r.push(k.as_str().to_string());
    }
    r
}

/// `HeaderMap::remove` with a lower-case name: the header and all its
/// values leave the map (a name that is not a valid header name is in no
/// map, and leaves it as it was).
#[verifier::external_body]
fn remove_header(map: &mut HeaderMap, name: &str)
    requires
        name@ == ascii_lower(name@),
    ensures
        header_fields(*final(map)) == header_fields(*old(map)).remove(name@),
{
    map.remove(name);
}

// ---------------------------------------------------------------- rules

/// The standard hop-by-hop headers other than `Connection` and `Upgrade`.
pub open spec fn hop_by_hop_name(lower: Seq<char>) -> bool {
    ||| lower == "keep-alive"@
    ||| lower == "transfer-encoding"@
    ||| lower == "te"@
    ||| lower == "trailers"@
    ||| lower == "proxy-connection"@
    ||| lower == "proxy-authenticate"@
    ||| lower == "proxy-authorization"@
}

/// Whether `name` (in any ASCII case) is a standard hop-by-hop header that
/// is never forwarded. `Connection` and `Upgrade` are handled apart, so
/// that WebSocket upgrades keep them.
pub fn is_hop_by_hop(name: &str) -> (r: bool)
    ensures
        r == hop_by_hop_name(ascii_lower(name@)),
        r == ({
            let l = ascii_lower(name@);
            l == "keep-alive"@ || l == "transfer-encoding"@ || l == "te"@ || l == "trailers"@
                || l == "proxy-connection"@ || l == "proxy-authenticate"@ || l == "proxy-authorization"@
        }),
{
    let l = lower_chars(&chars_of(name));
    chars_are(&l, "keep-alive") || chars_are(&l, "transfer-encoding") || chars_are(&l, "te")
        || chars_are(&l, "trailers") || chars_are(&l, "proxy-connection")
        || chars_are(&l, "proxy-authenticate") || chars_are(&l, "proxy-authorization")
}

/// The non-empty, trimmed, lower-cased pieces of a list.
pub open spec fn clean_pieces(ps: Seq<Seq<char>>) -> Seq<Seq<char>>
    decreases ps.len(),
{
    if ps.len() == 0 {
        Seq::empty()
    } else {
        let c = ascii_lower(trim(ps.last()));
        if c.len() == 0 {
            clean_pieces(ps.drop_last())
        } else {
            clean_pieces(ps.drop_last()).push(c)
        }
    }
}

/// The header names a `Connection` value lists: its comma-separated items,
/// trimmed and lower-cased, empty ones dropped.
pub open spec fn connection_listed(value: Seq<char>) -> Seq<Seq<char>> {
    clean_pieces(split_commas(value))
}

/// The header names listed by a `Connection` value (see `connection_listed`).
pub fn listed_headers(value: &str) -> (r: Vec<String>)
    ensures
        r@.map_values(|s: String| s@) == connection_listed(value@),
{
    let pieces = split_commas_chars(&chars_of(value));
    let ghost pv = pieces@.map_values(|p: Vec<char>| p@);
    let mut r: Vec<String> = Vec::new();
    let n = pieces.len();
    for i in 0..n
        invariant
            n == pieces@.len(),
            pv == pieces@.map_values(|p: Vec<char>| p@),
            r@.map_values(|s: String| s@) == clean_pieces(pv.take(i as int)),
    {
        assert(pv.take(i + 1).drop_last() =~= pv.take(i as int));
        assert(pv.take(i + 1).last() == pieces@[i as int]@);
        let c = lower_chars(&trim_chars(&pieces[i]));
        if c.len() > 0 {
            let ghost before = r@.map_values(|s: String| s@);
            r.push(string_of(&c));
            assert(r@.map_values(|s: String| s@) =~= before.push(c@));
        }
    }
    assert(pv.take(n as int) =~= pv);
    r
}

/// The lower-cased names of a sequence that are hop-by-hop names.
pub open spec fn hop_names_in(keys: Set<Seq<char>>) -> Set<Seq<char>> {
    keys.filter(|k: Seq<char>| hop_by_hop_name(ascii_lower(k)))
}

/// The text of the `Connection` header (empty when absent or not visible ASCII).
pub open spec fn connection_value(fields: Map<Seq<char>, Seq<Seq<u8>>>) -> Seq<char> {
    match header_text_of(fields, "connection"@) {
        Some(t) => t,
        None => Seq::empty(),
    }
}

/// What `strip_hop_headers` removes before the standard hop-by-hop names:
/// unless the connection headers are kept, `connection` and every name its
/// value lists.
pub open spec fn connection_removals(fields: Map<Seq<char>, Seq<Seq<u8>>>, keep_connection_upgrade: bool) -> Set<Seq<char>> {
    if keep_connection_upgrade {
        Set::empty()
    } else {
        connection_listed(connection_value(fields)).to_set().insert("connection"@)
    }
}

/// The header map after stripping.
pub open spec fn stripped(fields: Map<Seq<char>, Seq<Seq<u8>>>, keep_connection_upgrade: bool) -> Map<Seq<char>, Seq<Seq<u8>>> {
    let after = fields.remove_keys(connection_removals(fields, keep_connection_upgrade));
    after.remove_keys(hop_names_in(after.dom()))
}

proof fn lemma_clean_lower(ps: Seq<Seq<char>>)
    ensures
        forall|i: int| 0 <= i < clean_pieces(ps).len() ==> (#[trigger] clean_pieces(ps)[i]) == ascii_lower(clean_pieces(ps)[i]),
    decreases ps.len(),
{
    if ps.len() > 0 {
        let r = clean_pieces(ps.drop_last());
        lemma_clean_lower(ps.drop_last());
        lemma_lower_idempotent(trim(ps.last()));
        let c = ascii_lower(trim(ps.last()));
        if c.len() > 0 {
            assert forall|i: int| 0 <= i < r.push(c).len() implies (#[trigger] r.push(c)[i]) == ascii_lower(r.push(c)[i]) by {
                if i < r.len() {
                    assert(r.push(c)[i] == r[i]);
                }
            }
        }
    }
}

proof fn lemma_plain_names()
    ensures
        plain_header_name("connection"@),
        plain_header_name("upgrade"@),
        "connection"@ == ascii_lower("connection"@),
{
    reveal_strlit("connection");
    reveal_strlit("upgrade");
    assert("connection"@ =~= ascii_lower("connection"@));
}

proof fn lemma_lower_idempotent(s: Seq<char>)
    ensures
        ascii_lower(ascii_lower(s)) == ascii_lower(s),
{
    assert(ascii_lower(ascii_lower(s)) =~= ascii_lower(s));
}

/// Removes hop-by-hop headers (see `stripped`). When
/// `keep_connection_upgrade` is false (plain HTTP), `Connection` and the
/// headers it lists go too; when true (a WebSocket
/// upgrade), `Connection` and `Upgrade` stay so the backend sees the
/// handshake.
pub fn strip_hop_headers(headers: &mut HeaderMap, keep_connection_upgrade: bool)
    ensures
        header_fields(*final(headers)) == stripped(header_fields(*old(headers)), keep_connection_upgrade),
{
    let ghost f0 = header_fields(*headers);
    proof {
        lemma_plain_names();
    }
    if !keep_connection_upgrade {
        let value = match header_text(headers, "connection") {
            Some(t) => t,
            None => String::from_str(""),
        };
        proof {
            reveal_strlit("");
        }
        let listed = listed_headers(value.as_str());
        let ghost lv = listed@.map_values(|s: String| s@);
        remove_header(headers, "connection");
        let n = listed.len();
        for i in 0..n
            invariant
                n == listed@.len(),
                lv == listed@.map_values(|s: String| s@),
                lv == connection_listed(value@),
                header_fields(*headers) == f0.remove("connection"@).remove_keys(
                    lv.take(i as int).to_set(),
                ),
        {
            let ghost before = header_fields(*headers);
            assert(lv[i as int] == listed@[i as int]@);
            proof {
                lemma_clean_lower(split_commas(value@));
            }
            remove_header(headers, listed[i].as_str());
            proof {
                let s1 = lv.take(i + 1).to_set();
                assert(lv.take(i + 1) =~= lv.take(i as int).push(lv[i as int]));
                crate::lifecycle::graph::lemma_push_to_set(lv.take(i as int), lv[i as int]);
                assert(header_fields(*headers) =~= f0.remove("connection"@).remove_keys(s1));
            }
        }
        proof {
            assert(lv.take(n as int) =~= lv);
            assert(header_fields(*headers) =~= f0.remove_keys(connection_removals(f0, false)));
        }
    } else {
        assert(f0.remove_keys(Set::empty()) =~= f0);
    }
    let ghost f1 = header_fields(*headers);
    let names = header_names(headers);
    let ghost nv = names@.map_values(|s: String| s@);
    let mut hop: Vec<String> = Vec::new();
    let m = names.len();
    for i in 0..m
        invariant
            m == names@.len(),
            nv == names@.map_values(|s: String| s@),
            hop@.map_values(|s: String| s@).to_set() == hop_names_in(nv.take(i as int).to_set()),
            forall|t: int| 0 <= t < hop@.len() ==> (#[trigger] hop@[t])@ == ascii_lower(hop@[t]@),
            forall|t: int| 0 <= t < names@.len() ==> (#[trigger] names@[t])@ == ascii_lower(names@[t]@),
            nv.to_set() == f1.dom(),
    {
        assert(nv[i as int] == names@[i as int]@);
        let ghost before = hop@.map_values(|s: String| s@);
        proof {
            assert(nv.take(i + 1) =~= nv.take(i as int).push(nv[i as int]));
            crate::lifecycle::graph::lemma_push_to_set(nv.take(i as int), nv[i as int]);
            assert(nv.contains(nv[i as int]));
        }
        if is_hop_by_hop(names[i].as_str()) {
            hop.push(names[i].clone());
            proof {
                assert(hop@.map_values(|s: String| s@) =~= before.push(nv[i as int]));
                crate::lifecycle::graph::lemma_push_to_set(before, nv[i as int]);
            }
        }
        assert(hop@.map_values(|s: String| s@).to_set() =~= hop_names_in(nv.take(i + 1).to_set()));
    }
    assert(nv.take(m as int) =~= nv);
    let ghost hv = hop@.map_values(|s: String| s@);
    let k = hop.len();
    for i in 0..k
        invariant
            k == hop@.len(),
            hv == hop@.map_values(|s: String| s@),
            forall|t: int| 0 <= t < hop@.len() ==> (#[trigger] hop@[t])@ == ascii_lower(hop@[t]@),
            header_fields(*headers) == f1.remove_keys(hv.take(i as int).to_set()),
    {
        assert(hv[i as int] == hop@[i as int]@);
        remove_header(headers, hop[i].as_str());
        proof {
            assert(hv.take(i + 1) =~= hv.take(i as int).push(hv[i as int]));
            crate::lifecycle::graph::lemma_push_to_set(hv.take(i as int), hv[i as int]);
            assert(header_fields(*headers) =~= f1.remove_keys(hv.take(i + 1).to_set()));
        }
    }
    assert(hv.take(k as int) =~= hv);
}

/// A request asks for a WebSocket upgrade: its `Connection` value mentions
/// `upgrade` and its `Upgrade` value is `websocket` (both in any ASCII case).
pub open spec fn websocket_upgrade(fields: Map<Seq<char>, Seq<Seq<u8>>>) -> bool {
    let connection = match header_text_of(fields, "connection"@) {
        Some(t) => t,
        None => Seq::empty(),
    };
    let upgrade = match header_text_of(fields, "upgrade"@) {
        Some(t) => t,
        None => Seq::empty(),
    };
    contains_seq(ascii_lower(connection), "upgrade"@) && ascii_lower(upgrade) == "websocket"@
}

/// Whether a request with these headers is a WebSocket upgrade (see `websocket_upgrade`).
pub fn is_websocket_upgrade(headers: &HeaderMap) -> (r: bool)
    ensures
        r == websocket_upgrade(header_fields(*headers)),
{
    proof {
        lemma_plain_names();
    }
    let connection = match header_text(headers, "connection") {
        Some(t) => t,
        None => String::from_str(""),
    };
    let upgrade = match header_text(headers, "upgrade") {
        Some(t) => t,
        None => String::from_str(""),
    };
    proof {
        reveal_strlit("");
    }
    assert(""@ =~= Seq::<char>::empty());
    let c = lower_chars(&chars_of(connection.as_str()));
    let u = lower_chars(&chars_of(upgrade.as_str()));
    let needle = chars_of("upgrade");
    let has = contains_chars(&c, &needle);
    let ws = chars_are(&u, "websocket");
    has && ws
}

proof fn lemma_kept_names()
    ensures
        !hop_by_hop_name(ascii_lower("connection"@)),
        !hop_by_hop_name(ascii_lower("upgrade"@)),
{
    reveal_strlit("connection");
    reveal_strlit("upgrade");
    reveal_strlit("keep-alive");
    reveal_strlit("transfer-encoding");
    reveal_strlit("te");
    reveal_strlit("trailers");
    reveal_strlit("proxy-connection");
    reveal_strlit("proxy-authenticate");
    reveal_strlit("proxy-authorization");
    assert(ascii_lower("connection"@) =~= "connection"@);
    assert(ascii_lower("upgrade"@) =~= "upgrade"@);
    assert("connection"@ != "keep-alive"@ && "connection"@ != "trailers"@ && "connection"@ != "te"@) by {
        assert("connection"@[0] != "keep-alive"@[0]);
        assert("connection"@[0] != "trailers"@[0]);
    }
    assert("connection"@[0] != "proxy-connection"@[0]);
    assert("upgrade"@[0] != "transfer-encoding"@[0]);
    assert("upgrade"@[0] != "trailers"@[0]);
    assert("upgrade"@[0] != "te"@[0]);
    assert("upgrade"@[0] != "keep-alive"@[0]);
    assert("upgrade"@[0] != "proxy-connection"@[0]);
}

/// Law (hop-by-hop stripping): no standard hop-by-hop header survives; in
/// plain HTTP mode neither `Connection` nor any header its value lists
/// survives; in upgrade mode
/// `Connection` and `Upgrade` survive when present; and every surviving
/// header keeps its values.
pub proof fn law_strip_hop_headers(fields: Map<Seq<char>, Seq<Seq<u8>>>, keep_connection_upgrade: bool)
    ensures
        forall|k: Seq<char>| #[trigger] stripped(fields, keep_connection_upgrade).contains_key(k) ==> {
            &&& !hop_by_hop_name(ascii_lower(k))
            &&& fields.contains_key(k)
            &&& stripped(fields, keep_connection_upgrade)[k] == fields[k]
        },
        !keep_connection_upgrade ==> !stripped(fields, keep_connection_upgrade).contains_key("connection"@),
        !keep_connection_upgrade ==> forall|k: Seq<char>| #[trigger] connection_listed(connection_value(fields)).contains(k)
            ==> !stripped(fields, false).contains_key(k),
        keep_connection_upgrade ==> (fields.contains_key("connection"@) ==> stripped(fields, true).contains_key("connection"@)),
        keep_connection_upgrade ==> (fields.contains_key("upgrade"@) ==> stripped(fields, true).contains_key("upgrade"@)),
{
    lemma_kept_names();
    if keep_connection_upgrade {
        assert(connection_removals(fields, true) =~= Set::empty());
        assert(fields.remove_keys(Set::empty()) =~= fields);
    }
}

/// Law (end-to-end headers are kept, hop-by-hop ones are not): none of the
/// seven standard hop-by-hop headers survives stripping, and stripping keeps,
/// with its values,
/// every header other than the seven standard hop-by-hop ones (keep-alive,
/// transfer-encoding, te, trailers, proxy-connection, proxy-authenticate,
/// proxy-authorization, in any ASCII case) and, in plain HTTP mode,
/// `Connection` and the headers it lists.
pub proof fn law_strip_keeps_end_to_end(fields: Map<Seq<char>, Seq<Seq<u8>>>, keep_connection_upgrade: bool)
    ensures
        forall|k: Seq<char>| #[trigger] fields.contains_key(k) && ({
            let l = ascii_lower(k);
            l != "keep-alive"@ && l != "transfer-encoding"@ && l != "te"@ && l != "trailers"@
                && l != "proxy-connection"@ && l != "proxy-authenticate"@ && l != "proxy-authorization"@
        }) && (keep_connection_upgrade || (k != "connection"@ && !connection_listed(connection_value(fields)).contains(k)))
            ==> stripped(fields, keep_connection_upgrade).contains_key(k)
                && stripped(fields, keep_connection_upgrade)[k] == fields[k],
        forall|k: Seq<char>| #[trigger] stripped(fields, keep_connection_upgrade).contains_key(k) ==> {
            let l = ascii_lower(k);
            l != "keep-alive"@ && l != "transfer-encoding"@ && l != "te"@ && l != "trailers"@
                && l != "proxy-connection"@ && l != "proxy-authenticate"@ && l != "proxy-authorization"@
        },
{
    law_strip_hop_headers(fields, keep_connection_upgrade);
    let removals = connection_removals(fields, keep_connection_upgrade);
    let after = fields.remove_keys(removals);
    assert forall|k: Seq<char>| #[trigger] fields.contains_key(k) && ({
        let l = ascii_lower(k);
        l != "keep-alive"@ && l != "transfer-encoding"@ && l != "te"@ && l != "trailers"@
            && l != "proxy-connection"@ && l != "proxy-authenticate"@ && l != "proxy-authorization"@
    }) && (keep_connection_upgrade || (k != "connection"@ && !connection_listed(connection_value(fields)).contains(k)))
        implies stripped(fields, keep_connection_upgrade).contains_key(k)
            && stripped(fields, keep_connection_upgrade)[k] == fields[k] by {
        if keep_connection_upgrade {
            assert(!removals.contains(k));
        } else {
            let listed = connection_listed(connection_value(fields));
            assert(!listed.to_set().contains(k));
            assert(!removals.contains(k));
        }
        assert(after.contains_key(k) && after[k] == fields[k]);
        assert(!hop_by_hop_name(ascii_lower(k)));
        assert(!hop_names_in(after.dom()).contains(k));
    }
}

} // verus!
