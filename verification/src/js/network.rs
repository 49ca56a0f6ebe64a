//! Network requests that scripts start and ask for later.

use crate::fetch::http::{headers_view, lossy_text, Header, HttpResponse};
use std::collections::BTreeMap;
use vstd::prelude::*;

verus! {

broadcast use vstd::std_specs::btree::group_btree_axioms;

/// How a request ended: with a response, or with the message of an error.
pub type NetworkTaskResult = Result<HttpResponse, String>;

/// The requests that scripts have started.
#[derive(Debug)]
pub struct NetworkTasks {
    pub next_id: u32,
    /// What came back and has not been asked for yet.
    pub completed: BTreeMap<u32, NetworkTaskResult>,
}

/// The id after `id`. No request has the id 0.
pub open spec fn id_after(id: u32) -> u32 {
    if id == u32::MAX {
        1
    } else {
        (id + 1) as u32
    }
}

/// The results together with the ones that arrived; a later one wins.
pub open spec fn with_arrived(
    completed: Map<u32, NetworkTaskResult>,
    arrived: Seq<(u32, NetworkTaskResult)>,
) -> Map<u32, NetworkTaskResult>
    decreases arrived.len(),
{
    if arrived.len() == 0 {
        completed
    } else {
        with_arrived(completed.insert(arrived[0].0, arrived[0].1), arrived.drop_first())
    }
}

impl NetworkTasks {
    /// No request has been started.
    pub fn new() -> (res: Self)
        ensures
            res.next_id == 1,
            res.completed@ == Map::<u32, NetworkTaskResult>::empty(),
    {
        NetworkTasks { next_id: 1, completed: BTreeMap::new() }
    }

    /// The id for a request that is about to start.
    pub fn start(&mut self) -> (res: u32)
        ensures
            res == old(self).next_id,
            final(self).next_id == id_after(res),
            final(self).completed == old(self).completed,
    {
        let id = self.next_id;
        self.next_id = if id == u32::MAX {
            1
        } else {
            id + 1
        };
        id
    }

    /// What came back for the request `id`, if anything did. It is handed out
    /// once. `arrived` holds what came back since the last call.
    pub fn poll(&mut self, id: u32, arrived: Vec<(u32, NetworkTaskResult)>) -> (res: Option<
        NetworkTaskResult,
    >)
        ensures
            ({
                let all = with_arrived(old(self).completed@, arrived@);
                &&& res == (if all.contains_key(id) {
                    Some(all[id])
                } else {
                    None
                })
                &&& final(self).completed@ == all.remove(id)
            }),
            final(self).next_id == old(self).next_id,
    {
        let mut rest = arrived;
        let ghost all = with_arrived(self.completed@, rest@);
        while rest.len() > 0
            invariant
                with_arrived(self.completed@, rest@) == all,
                self.next_id == old(self).next_id,
            decreases rest.len(),
        {
            let ghost before = rest@;
            let (done, result) = rest.remove(0);
            assert(rest@ =~= before.drop_first());
            self.completed.insert(done, result);
        }
        self.completed.remove(&id)
    }
}

/// The `application/x-www-form-urlencoded` form of pairs.
pub uninterp spec fn form_encoded(pairs: Seq<Header>) -> Seq<char>;

/// The pairs that `application/x-www-form-urlencoded` text holds.
pub uninterp spec fn form_decoded(text: Seq<char>) -> Seq<Header>;

/// `url::form_urlencoded::Serializer` on an empty string, fed with all pairs in
/// their order. The text is a function of the pairs alone.
#[verifier::external_body]
fn form_encode(pairs: &Vec<(String, String)>) -> (res: String)
    ensures
        res@ == form_encoded(headers_view(pairs@)),
{
    url::form_urlencoded::Serializer::new(String::new()).extend_pairs(pairs).finish()
}

/// `url::form_urlencoded::parse` on the bytes of `text`, with all pairs that it
/// yields. They are a function of the text alone.
#[verifier::external_body]
fn form_decode(text: &str) -> (res: Vec<(String, String)>)
    ensures
        headers_view(res@) == form_decoded(text@),
{
    url::form_urlencoded::parse(text.as_bytes()).into_owned().collect()
}

/// What a script hands over when it starts a request, besides the address and
/// the method.
#[derive(Debug, PartialEq, Eq)]
pub struct RequestParts {
    pub body: Option<String>,
    pub headers: Vec<(String, String)>,
}

/// The parts of a request: an empty body is none.
pub fn request_parts(body: &str, headers: &str) -> (res: RequestParts)
    ensures
        match res.body {
            Some(b) => body@.len() > 0 && b@ == body@,
            None => body@.len() == 0,
        },
        headers_view(res.headers@) == form_decoded(headers@),
{
    let headers = form_decode(headers);
    let empty = crate::text::text_eq(body, "");
    proof {
        reveal_strlit("");
        if body@.len() == 0 {
            assert(body@ =~= ""@);
        }
    }
    RequestParts {
        body: if empty {
            None
        } else {
            Some(body.to_string())
        },
        headers,
    }
}

/// What a script is told about a request that has ended.
#[derive(Debug, PartialEq, Eq)]
pub struct FetchReply {
    pub ok: bool,
    pub status: u16,
    pub status_text: Option<String>,
    pub body: String,
    /// The response headers, URL-encoded.
    pub headers: Option<String>,
    pub error: Option<String>,
}

/// The reply for a request that has ended, given its body as text and its
/// headers in URL-encoded form.
pub fn reply_with(result: NetworkTaskResult, body: String, headers: String) -> (res: FetchReply)
    ensures
        match result {
            Ok(response) => res == (FetchReply {
                ok: true,
                status: response.status,
                status_text: Some(response.status_text),
                body,
                headers: Some(headers),
                error: None,
            }),
            Err(error) => {
                &&& !res.ok
                &&& res.status == 0
                &&& res.status_text is None
                &&& res.body@ == Seq::<char>::empty()
                &&& res.headers is None
                &&& res.error == Some(error)
            },
        },
{
    match result {
        Ok(response) => FetchReply {
            ok: true,
            status: response.status,
            status_text: Some(response.status_text),
            body,
            headers: Some(headers),
            error: None,
        },
        Err(error) => {
            let empty = String::new();
            assert(empty@ =~= Seq::<char>::empty());
            FetchReply {
                ok: false,
                status: 0,
                status_text: None,
                body: empty,
                headers: None,
                error: Some(error),
            }
        },
    }
}

/// The reply for a request that has ended.
pub fn fetch_reply(result: NetworkTaskResult) -> (res: FetchReply)
    ensures
        match result {
            Ok(response) => {
                &&& res.ok
                &&& res.status == response.status
                &&& res.status_text == Some(response.status_text)
                &&& res.body@ == lossy_text(response.body@)
                &&& res.headers matches Some(h) && h@ == form_encoded(
                    headers_view(response.headers@),
                )
                &&& res.error is None
            },
            Err(error) => {
                &&& !res.ok
                &&& res.status == 0
                &&& res.status_text is None
                &&& res.body@ == Seq::<char>::empty()
                &&& res.headers is None
                &&& res.error == Some(error)
            },
        },
{
    let (body, headers) = match &result {
        Ok(response) => (
            crate::fetch::http::from_utf8_lossy(&response.body),
            form_encode(&response.headers),
        ),
        Err(_) => (String::new(), String::new()),
    };
    reply_with(result, body, headers)
}

/// A result is handed out once: it is gone with the poll that returns it.
pub proof fn law_results_are_handed_out_once(
    completed: Map<u32, NetworkTaskResult>,
    arrived: Seq<(u32, NetworkTaskResult)>,
    id: u32,
)
    ensures
        !with_arrived(
            with_arrived(completed, arrived).remove(id),
            Seq::<(u32, NetworkTaskResult)>::empty(),
        ).contains_key(id),
{
}

} // verus!
