//! The decisions of two HTTP routes: cascading a stream from or to another
//! node, and liveman's storage routes (ping and presign). The handlers, the
//! stream manager and the storage operator stay with the caller.

use vstd::prelude::*;
use crate::keyed::KeyedTable;
use crate::outside::{header_value_text, is_visible_ascii};
use crate::text::{owned, concat, same_text};

verus! {

/// Which way a stream is cascaded.
pub enum CascadeDirection {
    /// Pull the stream from this source address.
    Pull(String),
    /// Push the stream to this target address.
    Push(String),
}

/// The direction of a cascade request: exactly one of the two addresses must be
/// given; the error is the message the request is refused with.
pub fn cascade_direction(source_url: Option<String>, target_url: Option<String>) -> (r: Result<
    CascadeDirection,
    String,
>)
    ensures
        (source_url is None && target_url is None) ==> (r matches Err(m) && m@
            == "src and dst cannot be empty at the same time"@),
        (source_url is Some && target_url is Some) ==> (r matches Err(m) && m@
            == "src and dst cannot be non-empty at the same time"@),
        source_url matches Some(s) ==> target_url is None ==> r == Ok::<
            CascadeDirection,
            String,
        >(CascadeDirection::Pull(s)),
        target_url matches Some(t) ==> source_url is None ==> r == Ok::<
            CascadeDirection,
            String,
        >(CascadeDirection::Push(t)),
{
    match (source_url, target_url) {
        (None, None) => Err(owned("src and dst cannot be empty at the same time")),
        (Some(_), Some(_)) => Err(owned("src and dst cannot be non-empty at the same time")),
        (Some(s), None) => Ok(CascadeDirection::Pull(s)),
        (None, Some(t)) => Ok(CascadeDirection::Push(t)),
    }
}

/// An HTTP answer: its status code and its text body.
pub struct Reply {
    pub status: u16,
    pub body: String,
}

/// The answer to a storage ping: 200 "ok" when storage is configured, 503
/// "storage not configured" otherwise.
pub fn ping_reply(storage_configured: bool) -> (r: Reply)
    ensures
        storage_configured ==> r.status == 200 && r.body@ == "ok"@,
        !storage_configured ==> r.status == 503 && r.body@ == "storage not configured"@,
{
    if storage_configured {
        Reply { status: 200, body: owned("ok") }
    } else {
        Reply { status: 503, body: owned("storage not configured") }
    }
}

/// Which presigned operation a request asks for.
pub enum PresignOp {
    /// A presigned GET.
    Read,
    /// A presigned PUT.
    Write,
}

/// What a presign request asks for, and for how long (at least 30 s); or the
/// answer that refuses it: 503 without storage, 400 for a method other than
/// GET and PUT.
pub fn presign_plan(storage_configured: bool, method: &str, ttl_seconds: u64) -> (r: Result<
    (PresignOp, u64),
    Reply,
>)
    ensures
        !storage_configured ==> (r matches Err(reply) && reply.status == 503 && reply.body@
            == "storage not configured"@),
        storage_configured && method@ == "GET"@ ==> (r matches Ok((op, ttl)) && op is Read && ttl
            == (if ttl_seconds < 30 {
            30
        } else {
            ttl_seconds
        })),
        storage_configured && method@ == "PUT"@ ==> (r matches Ok((op, ttl)) && op is Write && ttl
            == (if ttl_seconds < 30 {
            30
        } else {
            ttl_seconds
        })),
        storage_configured && method@ != "GET"@ && method@ != "PUT"@ ==> (r matches Err(reply)
            && reply.status == 400 && reply.body@ == "unsupported method"@),
{
    if !storage_configured {
        return Err(Reply { status: 503, body: owned("storage not configured") });
    }
    let ttl = if ttl_seconds < 30 {
        30
    } else {
        ttl_seconds
    };
    proof {
        reveal_strlit("GET");
        reveal_strlit("PUT");
        assert("GET"@ != "PUT"@) by {
            assert("GET"@[0] != "PUT"@[0]);
        }
    }
    if same_text(method, "GET") {
        Ok((PresignOp::Read, ttl))
    } else if same_text(method, "PUT") {
        Ok((PresignOp::Write, ttl))
    } else {
        Err(Reply { status: 400, body: owned("unsupported method") })
    }
}

/// The answer when presigning failed with `error_text`: 500 and the error.
pub fn presign_failure_reply(error_text: &str) -> (r: Reply)
    ensures
        r.status == 500,
        r.body@ == "presign failed: "@ + error_text@,
{
    Reply { status: 500, body: concat("presign failed: ", error_text) }
}

/// The text of a header value: its bytes when they are all tabs or visible
/// ASCII, empty otherwise.
pub open spec fn header_text_or_empty(bytes: Seq<u8>) -> Seq<char> {
    if forall|i: int| 0 <= i < bytes.len() ==> is_visible_ascii(#[trigger] bytes[i]) {
        bytes.map_values(|b: u8| b as char)
    } else {
        Seq::empty()
    }
}

/// The header map of a presigned request, from its headers in order: each name
/// with the text of its value, a later value for a name taking the place of an
/// earlier one.
pub open spec fn presigned_header_map(s: Seq<(Seq<char>, Seq<u8>)>) -> Map<Seq<char>, Seq<char>>
    decreases s.len(),
{
    if s.len() == 0 {
        Map::empty()
    } else {
        presigned_header_map(s.drop_last()).insert(s.last().0, header_text_or_empty(s.last().1))
    }
}

/// The headers to hand back with a presigned address, from the headers of the
/// presigned request (names and value bytes).
pub fn presigned_headers(headers: &Vec<(String, Vec<u8>)>) -> (r: KeyedTable<String>)
    ensures
        r.wf(),
        r@.dom() == presigned_header_map(headers.deep_view()).dom(),
        forall|k: Seq<char>| #[trigger]
            r@.dom().contains(k) ==> r@[k]@ == presigned_header_map(headers.deep_view())[k],
{
    let n = headers.len();
    let mut table: KeyedTable<String> = KeyedTable::new();
    proof {
        assert(headers.deep_view().take(0) =~= Seq::<(Seq<char>, Seq<u8>)>::empty());
        assert(table@ =~= Map::<Seq<char>, String>::empty());
        assert(table@.dom() =~= presigned_header_map(headers.deep_view().take(0)).dom());
    }
    for i in 0..n
        invariant
            n == headers@.len(),
            table.wf(),
            table@.dom() == presigned_header_map(headers.deep_view().take(i as int)).dom(),
            forall|k: Seq<char>| #[trigger]
                table@.dom().contains(k) ==> table@[k]@ == presigned_header_map(
                    headers.deep_view().take(i as int),
                )[k],
    {
        let ghost prefix = headers.deep_view().take(i + 1);
        assert(prefix.drop_last() =~= headers.deep_view().take(i as int));
        let name = headers[i].0.clone();
        let text = match header_value_text(headers[i].1.as_slice()) {
            Some(t) => t,
            None => String::new(),
        };
        proof {
            assert(prefix.last() == headers.deep_view()[i as int]);
            assert(text@ =~= header_text_or_empty(headers@[i as int].1@));
        }
        let ghost key = name@;
        let ghost value = text@;
        let ghost before = table@;
        let ghost expected_before = presigned_header_map(headers.deep_view().take(i as int));
        proof {
            assert(prefix.last().0 == key);
            assert(presigned_header_map(prefix) == expected_before.insert(
                key,
                header_text_or_empty(prefix.last().1),
            ));
        }
        table.insert(name, text);
        proof {
            assert(table@.dom() =~= presigned_header_map(prefix).dom());
            assert forall|k: Seq<char>| #[trigger] table@.dom().contains(k) implies table@[k]@
                == presigned_header_map(prefix)[k] by {
                if k == key {
                    assert(table@[k]@ == value);
                    assert(prefix.last().1 == headers@[i as int].1@);
                    assert(value == header_text_or_empty(prefix.last().1));
                } else {
                    assert(before.dom().contains(k));
                    assert(table@[k] == before[k]);
                    assert(before[k]@ == expected_before[k]);
                }
            }
        }
    }
    assert(headers.deep_view().take(n as int) =~= headers.deep_view());
    table
}

} // verus!
