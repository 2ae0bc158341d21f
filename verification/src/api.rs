//! The computations behind the HTTP surface: for each route, the decision
//! it makes against the store and the exact JSON body it answers with.
//! Transport, status codes and request decoding stay with the caller; a
//! lookup miss is signalled here by `None`.

use vstd::prelude::*;
use crate::json::{escape_seq, push_escaped, push_usize, spec_dec};
use crate::store::{is_next_id, remove_id, EventStore};

verus! {

/// The JSON rendering of an optional identifier: the numeral, or `null`.
pub open spec fn id_body_spec(id: Option<usize>) -> Seq<char> {
    match id {
        Some(n) => spec_dec(n as nat),
        None => "null"@,
    }
}

/// The JSON record for one event: `{"id":<id or null>,"title":"<escaped>"}`.
pub open spec fn event_body_spec(id: Option<usize>, title: Seq<char>) -> Seq<char> {
    "{\"id\":"@ + id_body_spec(id) + ",\"title\":\""@ + escape_seq(title) + "\"}"@
}

/// One entry of the events listing: the identifier as a JSON key, then the
/// event's record.
pub open spec fn entry_body_spec(e: (usize, Seq<char>)) -> Seq<char> {
    "\""@ + spec_dec(e.0 as nat) + "\":"@ + event_body_spec(Some(e.0), e.1)
}

/// The comma-separated entries of the events listing, in the given order.
pub open spec fn entries_body_spec(s: Seq<(usize, Seq<char>)>) -> Seq<char>
    decreases s.len(),
{
    if s.len() == 0 {
        Seq::empty()
    } else if s.len() == 1 {
        entry_body_spec(s[0])
    } else {
        entries_body_spec(s.drop_last()) + ","@ + entry_body_spec(s.last())
    }
}

/// The listing envelope: every entry, then the echoed page number.
pub open spec fn events_body_spec(s: Seq<(usize, Seq<char>)>, page: usize) -> Seq<char> {
    "{\"events\":{"@ + entries_body_spec(s) + "},\"page\":"@ + spec_dec(page as nat) + "}"@
}

/// The body acknowledging a deletion.
pub open spec fn delete_body_spec(id: usize) -> Seq<char> {
    "{\"status\":\"ok\",\"id\":"@ + spec_dec(id as nat) + "}"@
}

/// The page a listing reports: the requested one, or `1` when none was
/// given (a non-numeric page value never parses, so it defaults the same
/// way).
pub open spec fn page_or_default(page: Option<usize>) -> usize {
    match page {
        Some(p) => p,
        None => 1,
    }
}

/// Appends the JSON record for an event.
fn push_event_body(out: &mut String, id: Option<usize>, title: &str)
    ensures
        final(out)@ == old(out)@ + event_body_spec(id, title@),
{
    out.append("{\"id\":");
    match id {
        Some(n) => push_usize(out, n),
        None => out.append("null"),
    }
    out.append(",\"title\":\"");
    push_escaped(out, title);
    out.append("\"}");
    proof {
        assert(out@ =~= old(out)@ + event_body_spec(id, title@));
    }
}

/// The listing route: renders every stored event and echoes the requested
/// page (default `1`); no pagination is applied to the entries.
pub fn get_events(store: &EventStore, page: Option<usize>) -> (r: String)
    requires
        store.wf(),
    ensures
        r@ == events_body_spec(store@, page_or_default(page)),
{
    let mut out = String::new();
    out.append("{\"events\":{");
    let ghost header: Seq<char> = out@;
    let n: usize = store.len();
    let mut i: usize = 0;
    while i < n
        invariant
            n == store@.len(),
            store.wf(),
            0 <= i <= n,
            out@ == header + entries_body_spec(store@.subrange(0, i as int)),
        decreases n - i,
    {
        if i > 0 {
            out.append(",");
        }
        let k: usize = store.id_at(i);
        out.append("\"");
        push_usize(&mut out, k);
        out.append("\":");
        push_event_body(&mut out, Some(k), store.title_at(i));
        proof {
            let pre = store@.subrange(0, i as int);
            let cur = store@.subrange(0, i as int + 1);
            assert(cur.drop_last() =~= pre);
            assert(cur.last() == store@[i as int]);
            assert(out@ =~= header + entries_body_spec(cur));
        }
        i += 1;
    }
    out.append("},\"page\":");
    let p: usize = match page {
        Some(p) => p,
        None => 1,
    };
    push_usize(&mut out, p);
    out.append("}");
    proof {
        assert(store@.subrange(0, n as int) =~= store@);
        assert(out@ =~= events_body_spec(store@, page_or_default(page)));
    }
    out
}

/// The single-event route: the event's JSON record, or `None` (*not
/// found*) when no event is stored under `id`.
pub fn get_event(store: &EventStore, id: usize) -> (r: Option<String>)
    requires
        store.wf(),
    ensures
        r is Some <==> store.as_map().dom().contains(id),
        r matches Some(b) ==> b@ == event_body_spec(Some(id), store.as_map()[id]),
{
    match store.get(id) {
        Some(e) => {
            let mut out = String::new();
            push_event_body(&mut out, e.id, e.title.as_str());
            proof {
                assert(out@ =~= event_body_spec(Some(id), store.as_map()[id]));
            }
            Some(out)
        },
        None => None,
    }
}

/// The deletion route: removes the event stored under `id` and
/// acknowledges with `{"status":"ok","id":<id>}`, or answers `None`
/// (*not found*) and leaves the store untouched.
pub fn delete_event(store: &mut EventStore, id: usize) -> (r: Option<String>)
    requires
        old(store).wf(),
    ensures
        final(store).wf(),
        r is Some <==> old(store).as_map().dom().contains(id),
        final(store)@ == remove_id(old(store)@, id),
        final(store).as_map() == old(store).as_map().remove(id),
        r is None ==> final(store)@ == old(store)@,
        r matches Some(b) ==> b@ == delete_body_spec(id),
{
    let found = store.delete(id);
    if found {
        let mut out = String::new();
        out.append("{\"status\":\"ok\",\"id\":");
        push_usize(&mut out, id);
        out.append("}");
        proof {
            assert(out@ =~= delete_body_spec(id));
        }
        Some(out)
    } else {
        None
    }
}

/// The creation route: stores `title` under the next free identifier and
/// returns that identifier together with the created event's JSON record.
pub fn new_event(store: &mut EventStore, title: String) -> (r: (usize, String))
    requires
        old(store).wf(),
        old(store).can_insert(),
    ensures
        final(store).wf(),
        is_next_id(old(store).as_map(), r.0),
        final(store)@ == old(store)@.push((r.0, title@)),
        final(store).as_map() == old(store).as_map().insert(r.0, title@),
        r.1@ == event_body_spec(Some(r.0), title@),
{
    let body_title = title.clone();
    let id = store.insert(title);
    let mut out = String::new();
    push_event_body(&mut out, Some(id), body_title.as_str());
    proof {
        assert(out@ =~= event_body_spec(Some(id), body_title@));
    }
    (id, out)
}

/// The location a creation advertises: `/events/<id>`.
pub fn event_location(id: usize) -> (r: String)
    ensures
        r@ == "/events/"@ + spec_dec(id as nat),
{
    let mut out = String::new();
    out.append("/events/");
    push_usize(&mut out, id);
    proof {
        assert(out@ =~= "/events/"@ + spec_dec(id as nat));
    }
    out
}

/// The update route as the service actually behaves: a placeholder that
/// ignores the submitted title, never consults the store, and answers
/// with a fixed record carrying the given identifier.
pub fn update_event(id: usize, _title: String) -> (r: String)
    ensures
        r@ == event_body_spec(Some(id), "First Event"@),
{
    let mut out = String::new();
    push_event_body(&mut out, Some(id), "First Event");
    proof {
        assert(out@ =~= event_body_spec(Some(id), "First Event"@));
    }
    out
}

/// Whether `c` is a decimal digit.
pub open spec fn is_digit(c: char) -> bool {
    48 <= (c as u32) <= 57
}

/// The numeric value of the digit `c`.
pub open spec fn digit_val(c: char) -> nat {
    ((c as u32) - 48) as nat
}

/// Every character of `s` is a decimal digit.
pub open spec fn all_digits(s: Seq<char>) -> bool {
    forall|i: int| 0 <= i < s.len() ==> is_digit(#[trigger] s[i])
}

/// The value of a decimal numeral.
pub open spec fn dec_value(s: Seq<char>) -> nat
    decreases s.len(),
{
    if s.len() == 0 {
        0
    } else {
        dec_value(s.drop_last()) * 10 + digit_val(s.last())
    }
}

/// A numeral's value is at least the value of any of its prefixes.
proof fn lemma_dec_value_prefix(s: Seq<char>, j: int)
    requires
        0 <= j <= s.len(),
    ensures
        dec_value(s.subrange(0, j)) <= dec_value(s),
    decreases s.len() - j,
{
    if j == s.len() {
        assert(s.subrange(0, j) =~= s);
    } else {
        lemma_dec_value_prefix(s, j + 1);
        assert(s.subrange(0, j + 1).drop_last() =~= s.subrange(0, j));
        assert(dec_value(s.subrange(0, j + 1)) == dec_value(s.subrange(0, j)) * 10 + digit_val(
            s.subrange(0, j + 1).last(),
        ));
    }
}

/// Parses a non-negative decimal integer, the way route and query
/// parameters are read: `Some` exactly for a nonempty all-digit numeral
/// whose value fits the identifier type, and the value is that numeral's.
pub fn parse_usize(s: &str) -> (r: Option<usize>)
    ensures
        r is Some <==> (s@.len() > 0 && all_digits(s@) && dec_value(s@) <= usize::MAX),
        r matches Some(n) ==> n == dec_value(s@),
{
    let n: usize = s.unicode_len();
    if n == 0 {
        return None;
    }
    let mut v: usize = 0;
    let mut i: usize = 0;
    while i < n
        invariant
            n == s@.len(),
            0 <= i <= n,
            all_digits(s@.subrange(0, i as int)),
            v == dec_value(s@.subrange(0, i as int)),
        decreases n - i,
    {
        let c: char = s.get_char(i);
        let u: u32 = c as u32;
        if u < 48 || u > 57 {
            proof {
                assert(!is_digit(s@[i as int]));
            }
            return None;
        }
        let d: usize = (u - 48) as usize;
        proof {
            let pre = s@.subrange(0, i as int);
            let cur = s@.subrange(0, i as int + 1);
            assert(cur.drop_last() =~= pre);
            assert(cur.last() == s@[i as int]);
            assert(all_digits(cur));
            assert(dec_value(cur) == v * 10 + d);
        }
        if v > (usize::MAX - d) / 10 {
            proof {
                lemma_dec_value_prefix(s@, i as int + 1);
                assert(dec_value(s@.subrange(0, i as int + 1)) > usize::MAX);
            }
            return None;
        }
        v = v * 10 + d;
        i += 1;
    }
    proof {
        assert(s@.subrange(0, n as int) =~= s@);
    }
    Some(v)
}

} // verus!
