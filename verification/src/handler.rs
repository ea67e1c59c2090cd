use vstd::prelude::*;

use dashmap::DashMap;

use lighthouse_protocol::{ClientMessage, Value, Verb as ProtocolVerb};

use crate::model::{path_view, removed_at, replaced_at, Directory, DirectoryTree, Node, Resource};
use crate::state::{lemma_get_after_insert, has_parent, is_parent_error, path_to_vec, State, StateError};
use crate::value::value_is_nil;

verus! {

/// A request method.
#[derive(Debug)]
pub enum Verb {
    Post,
    Create,
    Mkdir,
    Delete,
    List,
    Get,
    Put,
    Stream,
    Stop,
    Link,
    Unlink,
    Unknown(String),
}

/// A message from a client.
#[derive(Debug)]
pub struct Request {
    pub request_id: i32,
    pub verb: Verb,
    pub path: Vec<String>,
    pub payload: Value,
}

/// What a successful request is answered with, before it is turned into a
/// MessagePack value.
#[derive(Debug)]
pub enum Reply {
    /// No payload: `Value::Nil`.
    Nil,
    /// A value as it is.
    Value(Value),
    /// A directory listing.
    Tree(DirectoryTree),
}

/// Why a request was refused.
#[derive(Debug)]
pub enum HandlerError {
    /// The tree refused the operation.
    State(StateError),
    /// CREATE on a path that already leads to a node; it holds the path.
    AlreadyExists(Vec<String>),
    /// PUT on a path that leads nowhere; it holds the path.
    DoesNotExist(Vec<String>),
    /// STREAM with a request id whose stream is still running.
    StreamExists(i32),
    /// STOP with a request id that has no running stream.
    NoStream(i32),
    /// STOP with a request id whose stream runs on another path, which it holds.
    StreamOnOtherPath(i32, Vec<String>),
    /// A verb that is not served.
    UnimplementedVerb(Verb),
}

/// Work outside the tree that a request asks for.
#[derive(Debug)]
pub enum Effect {
    Nothing,
    /// Send `value` to the streams that watch `path`.
    Notify { path: Vec<String>, value: Value },
    /// Start sending the changes at `path` to the client, tagged `request_id`.
    StartStream { request_id: i32, path: Vec<String> },
    /// Stop the stream tagged `request_id`.
    StopStream { request_id: i32 },
}

/// The request that the MessagePack bytes encode, if they encode one.
pub uninterp spec fn decoded_request(bytes: Seq<u8>) -> Option<Request>;

/// Decodes a client message with `rmp_serde::from_slice` and takes over its
/// request id, verb (variant by variant), path and payload.
#[verifier::external_body]
fn decode_request(bytes: &[u8]) -> (r: Option<Request>)
    ensures
        r == decoded_request(bytes@),
{
    let m = rmp_serde::from_slice::<ClientMessage<Value>>(bytes).ok()?;
    let verb = match m.verb {
        ProtocolVerb::Post => Verb::Post, ProtocolVerb::Create => Verb::Create, ProtocolVerb::Mkdir => Verb::Mkdir,
        ProtocolVerb::Delete => Verb::Delete, ProtocolVerb::List => Verb::List, ProtocolVerb::Get => Verb::Get,
        ProtocolVerb::Put => Verb::Put, ProtocolVerb::Stream => Verb::Stream, ProtocolVerb::Stop => Verb::Stop,
        ProtocolVerb::Link => Verb::Link, ProtocolVerb::Unlink => Verb::Unlink, ProtocolVerb::Unknown(v) => Verb::Unknown(v),
    };
    Some(Request { request_id: m.request_id, verb, path: m.path, payload: m.payload })
}

/// The request that a binary message from the client carries, or `None`
/// where its bytes encode no client message.
pub fn receive_message(bytes: &[u8]) -> (r: Option<Request>)
    ensures
        r == decoded_request(bytes@),
{
    decode_request(bytes)
}

/// The answer to a request.
#[derive(Debug)]
pub struct Response {
    pub request_id: Option<i32>,
    pub code: i32,
    pub payload: Reply,
    pub response: Option<HandlerError>,
    pub warnings: Vec<String>,
}

/// A concurrent hash map of the `dashmap` crate.
#[verifier::external_type_specification]
#[verifier::external_body]
#[verifier::reject_recursive_types(K)]
#[verifier::reject_recursive_types(V)]
#[verifier::reject_recursive_types(S)]
pub struct ExDashMap<K, V, S>(dashmap::DashMap<K, V, S>);

/// A map from request ids to paths.
pub type StreamMap = DashMap<i32, Vec<String>>;

/// The entries of a map from request ids to paths, each path by its names.
pub uninterp spec fn stream_paths(m: StreamMap) -> Map<i32, Seq<Seq<char>>>;

/// No request id has a stream.
pub open spec fn no_streams() -> Map<i32, Seq<Seq<char>>> {
    Map::empty()
}

/// `DashMap::new`: a map with no entries.
#[verifier::external_body]
fn new_stream_map() -> (m: StreamMap)
    ensures
        stream_paths(m) == no_streams(),
{
    DashMap::new()
}

/// `DashMap::contains_key`: whether the map has an entry for `id`.
#[verifier::external_body]
fn stream_map_contains(m: &StreamMap, id: i32) -> (r: bool)
    ensures
        r == stream_paths(*m).contains_key(id),
{
    m.contains_key(&id)
}

/// `DashMap::insert`: the entry for `id` becomes `path`, in place of any
/// entry it had.
#[verifier::external_body]
fn stream_map_insert(m: &mut StreamMap, id: i32, path: Vec<String>)
    ensures
        stream_paths(*final(m)) == stream_paths(*old(m)).insert(id, path_view(path@)),
{
    m.insert(id, path);
}

/// `DashMap::remove`: takes out the entry for `id`, if there is one, and
/// gives back its path.
#[verifier::external_body]
fn stream_map_remove(m: &mut StreamMap, id: i32) -> (r: Option<Vec<String>>)
    ensures
        stream_paths(*final(m)) == stream_paths(*old(m)).remove(id),
        match r {
            Some(path) => stream_paths(*old(m)).contains_key(id) && path_view(path@) == stream_paths(
                *old(m),
            )[id],
            None => !stream_paths(*old(m)).contains_key(id),
        },
{
    m.remove(&id).map(|(_, path)| path)
}

/// The request handling of one client: the streams it runs, by request id.
pub struct ClientHandler {
    streams: StreamMap,
}

impl View for ClientHandler {
    type V = Map<i32, Seq<Seq<char>>>;

    /// The path of each running stream, by request id.
    closed spec fn view(&self) -> Map<i32, Seq<Seq<char>>> {
        stream_paths(self.streams)
    }
}

/// Whether two paths name the same names.
fn same_path(a: &Vec<String>, b: &Vec<String>) -> (r: bool)
    ensures
        r == (path_view(a@) == path_view(b@)),
{
    if a.len() != b.len() {
        assert(path_view(a@).len() != path_view(b@).len());
        return false;
    }
    let mut i: usize = 0;
    while i < a.len()
        invariant
            a@.len() == b@.len(),
            i <= a@.len(),
            forall|j: int| 0 <= j < i ==> a@[j]@ == b@[j]@,
        decreases a@.len() - i,
    {
        if a[i] != b[i] {
            assert(path_view(a@)[i as int] != path_view(b@)[i as int]);
            return false;
        }
        i = i + 1;
    }
    assert(path_view(a@) =~= path_view(b@));
    true
}

impl ClientHandler {
    /// A handler that runs no stream.
    pub fn new() -> (h: Self)
        ensures
            h@ == Map::<i32, Seq<Seq<char>>>::empty(),
    {
        ClientHandler { streams: new_stream_map() }
    }
}

impl Verb {
    /// Whether the verb reads or changes the tree whatever else holds.
    pub open spec fn always_uses_tree(self) -> bool {
        self is Post || self is Create || self is Mkdir || self is Delete || self is List
            || self is Get || self is Put
    }
}

impl Verb {
    /// Whether the verb may change the tree.
    pub open spec fn changes_tree(self) -> bool {
        self is Post || self is Create || self is Mkdir || self is Delete || self is Put
    }
}

/// The answer `res` is a success with `reply`.
pub open spec fn answers(res: Result<(Reply, i32), HandlerError>, reply: Reply) -> bool {
    res == Ok::<(Reply, i32), HandlerError>((reply, 200i32))
}

/// The tree refused the operation on `p` because `p` without its last name
/// does not lead to a directory.
pub open spec fn parent_refusal(before: Directory, p: Seq<Seq<char>>, res: Result<(Reply, i32), HandlerError>) -> bool {
    res matches Err(HandlerError::State(se)) && is_parent_error(before, p, se)
}

/// `effect` sends `value` to the streams that watch `path`.
pub open spec fn notifies(effect: Effect, path: Seq<String>, value: Value) -> bool {
    effect matches Effect::Notify { path: p, value: v } && p@ == path && v == value
}

/// The outcome of putting a resource holding `value` at `path`.
pub open spec fn set_outcome(
    before: Directory,
    after: Directory,
    path: Seq<String>,
    value: Value,
    res: Result<(Reply, i32), HandlerError>,
    effect: Effect,
) -> bool {
    let p = path_view(path);
    if has_parent(before, p) {
        &&& answers(res, Reply::Nil)
        &&& replaced_at(before, after, p, Node::Resource(Resource::holding(value)))
        &&& notifies(effect, path, value)
    } else {
        parent_refusal(before, p, res)
    }
}

/// What reading the resource at `p` answers.
pub open spec fn get_outcome(before: Directory, p: Seq<Seq<char>>, res: Result<(Reply, i32), HandlerError>) -> bool {
    match before.lookup(p) {
        None => res matches Err(HandlerError::State(StateError::NotFound)),
        Some(Node::Directory(_)) => res matches Err(HandlerError::State(StateError::NotAResource)),
        Some(Node::Resource(rs)) => answers(res, Reply::Value(rs@)),
    }
}

/// The outcome of handling `message`: `h0`/`h1` are the running streams
/// before and after, `before`/`after` the tree, `res` the answer and
/// `effect` the work to do outside the tree.
pub open spec fn outcome(
    h0: Map<i32, Seq<Seq<char>>>,
    h1: Map<i32, Seq<Seq<char>>>,
    before: Directory,
    after: Directory,
    message: Request,
    res: Result<(Reply, i32), HandlerError>,
    effect: Effect,
) -> bool {
    let p = path_view(message.path@);
    let id = message.request_id;
    match message.verb {
        Verb::Post => set_outcome(before, after, message.path@, message.payload, res, effect),
        Verb::Create => if before.lookup(p) is Some {
            res matches Err(HandlerError::AlreadyExists(v)) && v@ == message.path@
        } else {
            match effect {
                Effect::Notify { path: _, value } => value_is_nil(value) && set_outcome(
                    before,
                    after,
                    message.path@,
                    value,
                    res,
                    effect,
                ),
                _ => parent_refusal(before, p, res) && !has_parent(before, p),
            }
        },
        Verb::Mkdir => if has_parent(before, p) {
            &&& answers(res, Reply::Nil)
            &&& effect is Nothing
            &&& exists|d: Directory|
                d@ == Map::<Seq<char>, Node>::empty() && #[trigger] replaced_at(
                    before,
                    after,
                    p,
                    Node::Directory(d),
                )
        } else {
            parent_refusal(before, p, res)
        },
        Verb::Delete => if has_parent(before, p) {
            &&& answers(res, Reply::Nil)
            &&& effect is Nothing
            &&& removed_at(before, after, p)
        } else {
            parent_refusal(before, p, res)
        },
        Verb::List => match before.lookup(p) {
            None => res matches Err(HandlerError::State(StateError::NotFound)),
            Some(Node::Resource(_)) => res matches Err(HandlerError::State(StateError::NotADirectory)),
            Some(Node::Directory(d)) => {
                &&& res matches Ok((Reply::Tree(t), code))
                &&& code == 200
                &&& t.lists(d)
                &&& effect is Nothing
            },
        },
        Verb::Get => get_outcome(before, p, res) && (res is Ok ==> effect is Nothing),
        Verb::Put => if before.lookup(p) is None {
            res matches Err(HandlerError::DoesNotExist(v)) && v@ == message.path@
        } else {
            set_outcome(before, after, message.path@, message.payload, res, effect)
        },
        Verb::Stream => if h0.contains_key(id) {
            res matches Err(HandlerError::StreamExists(i)) && i == id && h1 == h0
        } else {
            &&& get_outcome(before, p, res)
            &&& res is Ok ==> h1 == h0.insert(id, p) && (effect matches Effect::StartStream {
                request_id,
                path,
            } && request_id == id && path@ == message.path@)
            &&& res is Err ==> h1 == h0
        },
        Verb::Stop => if !h0.contains_key(id) {
            res matches Err(HandlerError::NoStream(i)) && i == id && h1 == h0
        } else if h0[id] != p {
            res matches Err(HandlerError::StreamOnOtherPath(i, v)) && i == id && path_view(v@) == h0[id]
                && h1 == h0.remove(id)
        } else {
            &&& answers(res, Reply::Nil)
            &&& effect matches Effect::StopStream { request_id } && request_id == id
            &&& h1 == h0.remove(id)
        },
        Verb::Link | Verb::Unlink | Verb::Unknown(_) => res matches Err(
            HandlerError::UnimplementedVerb(v),
        ) && v == message.verb,
    }
}

impl ClientHandler {
    /// Whether handling `message` reads or changes the tree at its path.
    pub open spec fn uses_tree(self, message: Request) -> bool {
        message.verb.always_uses_tree() || (message.verb is Stream
            && !self@.contains_key(message.request_id))
    }

    /// Whether handling `message` reads or changes the tree at its path.
    pub fn reaches_tree(&self, message: &Request) -> (r: bool)
        ensures
            r == self.uses_tree(*message),
    {
        match message.verb {
            Verb::Post | Verb::Create | Verb::Mkdir | Verb::Delete | Verb::List | Verb::Get | Verb::Put => true,
            Verb::Stream => !stream_map_contains(&self.streams, message.request_id),
            _ => false,
        }
    }

    /// Carries out `message` on `state` and on the streams of this client,
    /// and says what to answer and what to do outside the tree.
    pub fn process_message(&mut self, state: &mut State, message: Request) -> (r: (
        Result<(Reply, i32), HandlerError>,
        Effect,
    ))
        requires
            old(self).uses_tree(message) ==> message.path@.len() > 0,
        ensures
            r.0 is Err ==> *final(state) == *old(state) && r.1 is Nothing,
            !message.verb.changes_tree() ==> *final(state) == *old(state),
            !(message.verb is Stream || message.verb is Stop) ==> final(self)@ == old(self)@,
            outcome(old(self)@, final(self)@, old(state)@, final(state)@, message, r.0, r.1),
    {
        let Request { request_id, verb, path, payload } = message;
        match verb {
            Verb::Post => {
                let value = payload.clone();
                match state.insert_resource(path.as_slice(), Resource::from(payload)) {
                    Ok(()) => (Ok((Reply::Nil, 200)), Effect::Notify { path, value }),
                    Err(e) => (Err(HandlerError::State(e)), Effect::Nothing),
                }
            },
            Verb::Create => {
                match state.path_exists(path.as_slice()) {
                    Ok(true) => {
                        return (Err(HandlerError::AlreadyExists(path)), Effect::Nothing);
                    },
                    Ok(false) => {},
                    Err(e) => {
                        return (Err(HandlerError::State(e)), Effect::Nothing);
                    },
                }
                let resource = Resource::new();
                let value = resource.value().clone();
                let ghost kept = resource;
                match state.insert_resource(path.as_slice(), resource) {
                    Ok(()) => {
                        proof {
                            Resource::lemma_holding(value);
                            crate::model::lemma_replaced_resource_value(
                                old(state)@,
                                state@,
                                path_view(path@),
                                kept,
                                Resource::holding(value),
                            );
                        }
                        (Ok((Reply::Nil, 200)), Effect::Notify { path, value })
                    },
                    Err(e) => (Err(HandlerError::State(e)), Effect::Nothing),
                }
            },
            Verb::Mkdir => {
                let directory = Directory::new();
                let ghost kept = directory;
                match state.insert_directory(path.as_slice(), directory) {
                    Ok(()) => {
                        assert(replaced_at(old(state)@, state@, path_view(path@), Node::Directory(kept)));
                        (Ok((Reply::Nil, 200)), Effect::Nothing)
                    },
                    Err(e) => (Err(HandlerError::State(e)), Effect::Nothing),
                }
            },
            Verb::Delete => {
                match state.remove(path.as_slice()) {
                    Ok(()) => (Ok((Reply::Nil, 200)), Effect::Nothing),
                    Err(e) => (Err(HandlerError::State(e)), Effect::Nothing),
                }
            },
            Verb::List => {
                match state.list_tree(path.as_slice()) {
                    Ok(tree) => (Ok((Reply::Tree(tree), 200)), Effect::Nothing),
                    Err(e) => (Err(HandlerError::State(e)), Effect::Nothing),
                }
            },
            Verb::Get => {
                match state.get(path.as_slice()) {
                    Ok(value) => (Ok((Reply::Value(value), 200)), Effect::Nothing),
                    Err(e) => (Err(HandlerError::State(e)), Effect::Nothing),
                }
            },
            Verb::Put => {
                match state.path_exists(path.as_slice()) {
                    Ok(true) => {},
                    Ok(false) => {
                        return (Err(HandlerError::DoesNotExist(path)), Effect::Nothing);
                    },
                    Err(e) => {
                        return (Err(HandlerError::State(e)), Effect::Nothing);
                    },
                }
                let value = payload.clone();
                match state.insert_resource(path.as_slice(), Resource::from(payload)) {
                    Ok(()) => (Ok((Reply::Nil, 200)), Effect::Notify { path, value }),
                    Err(e) => (Err(HandlerError::State(e)), Effect::Nothing),
                }
            },
            Verb::Stream => {
                if stream_map_contains(&self.streams, request_id) {
                    return (Err(HandlerError::StreamExists(request_id)), Effect::Nothing);
                }
                match state.get(path.as_slice()) {
                    Ok(value) => {
                        let stream_path = path_to_vec(path.as_slice());
                        stream_map_insert(&mut self.streams, request_id, stream_path);
                        (Ok((Reply::Value(value), 200)), Effect::StartStream { request_id, path })
                    },
                    Err(e) => (Err(HandlerError::State(e)), Effect::Nothing),
                }
            },
            Verb::Stop => {
                let removed = stream_map_remove(&mut self.streams, request_id);
                match removed {
                    None => {
                        assert(self@ =~= old(self)@);
                        (Err(HandlerError::NoStream(request_id)), Effect::Nothing)
                    },
                    Some(stream_path) => {
                        if !same_path(&stream_path, &path) {
                            (Err(HandlerError::StreamOnOtherPath(request_id, stream_path)), Effect::Nothing)
                        } else {
                            (Ok((Reply::Nil, 200)), Effect::StopStream { request_id })
                        }
                    },
                }
            },
            verb => (Err(HandlerError::UnimplementedVerb(verb)), Effect::Nothing),
        }
    }
}

/// What the answer `r` says: the result it reports.
pub open spec fn reported(r: Response) -> Result<(Reply, i32), HandlerError> {
    match r.response {
        Some(e) => Err(e),
        None => Ok((r.payload, r.code)),
    }
}

/// `r` answers the request `request_id` with `result`.
pub open spec fn responds(r: Response, request_id: i32, result: Result<(Reply, i32), HandlerError>) -> bool {
    &&& r.request_id == Some(request_id)
    &&& r.warnings@.len() == 0
    &&& reported(r) == result
    &&& result is Err ==> r.code == 400 && r.payload is Nil
}

/// The answer to the request `request_id` that had the result `result`.
pub fn respond(request_id: i32, result: Result<(Reply, i32), HandlerError>) -> (r: Response)
    ensures
        responds(r, request_id, result),
{
    match result {
        Ok((payload, code)) => Response {
            request_id: Some(request_id),
            code,
            payload,
            response: None,
            warnings: Vec::new(),
        },
        Err(e) => Response {
            request_id: Some(request_id),
            code: 400,
            payload: Reply::Nil,
            response: Some(e),
            warnings: Vec::new(),
        },
    }
}

/// The message that carries a new value of a streamed path to the client.
pub fn stream_response(request_id: i32, value: Value) -> (r: Response)
    ensures
        responds(r, request_id, Ok::<(Reply, i32), HandlerError>((Reply::Value(value), 200i32))),
{
    respond(request_id, Ok((Reply::Value(value), 200)))
}

impl ClientHandler {
    /// Carries out `message` and says what to answer and what to do outside
    /// the tree.
    pub fn handle_message(&mut self, state: &mut State, message: Request) -> (r: (Response, Effect))
        requires
            old(self).uses_tree(message) ==> message.path@.len() > 0,
        ensures
            reported(r.0) is Err ==> *final(state) == *old(state) && r.1 is Nothing,
            !message.verb.changes_tree() ==> *final(state) == *old(state),
            !(message.verb is Stream || message.verb is Stop) ==> final(self)@ == old(self)@,
            outcome(old(self)@, final(self)@, old(state)@, final(state)@, message, reported(r.0), r.1),
            responds(r.0, message.request_id, reported(r.0)),
    {
        let request_id = message.request_id;
        let (result, effect) = self.process_message(state, message);
        (respond(request_id, result), effect)
    }

    /// Forgets the stream `request_id` once it has ended.
    pub fn stream_ended(&mut self, request_id: i32)
        ensures
            final(self)@ == old(self)@.remove(request_id),
    {
        stream_map_remove(&mut self.streams, request_id);
    }
}

/// A frame that came in over the WebSocket connection, or the error that
/// came in its place.
#[derive(Debug)]
pub enum Frame {
    Binary(Vec<u8>),
    Ping,
    Close,
    /// Any other frame.
    Other,
    /// The peer reset the connection without the closing handshake.
    ResetWithoutClosingHandshake,
    /// Any other error.
    Error,
}

/// What to do with a frame while waiting for the next message.
#[derive(Debug)]
pub enum ReceiveStep {
    /// Hand on these bytes as the message.
    Deliver(Vec<u8>),
    /// Wait for the next frame.
    Skip,
    /// The connection is over: there are no more messages.
    End,
    /// Hand on the error.
    Fail,
}

/// What to do with `frame` while waiting for the next message: binary frames
/// are messages, pings and other frames are passed over, a close or a reset
/// ends the connection.
pub fn receive_step(frame: Frame) -> (r: ReceiveStep)
    ensures
        match frame {
            Frame::Binary(bytes) => r == ReceiveStep::Deliver(bytes),
            Frame::Ping | Frame::Other => r is Skip,
            Frame::Close | Frame::ResetWithoutClosingHandshake => r is End,
            Frame::Error => r is Fail,
        },
{
    match frame {
        Frame::Binary(bytes) => ReceiveStep::Deliver(bytes),
        Frame::Ping => ReceiveStep::Skip,
        Frame::Close => ReceiveStep::End,
        Frame::Other => ReceiveStep::Skip,
        Frame::ResetWithoutClosingHandshake => ReceiveStep::End,
        Frame::Error => ReceiveStep::Fail,
    }
}

/// A GET gives back what a POST at the same path wrote.
pub proof fn lemma_get_after_post(
    h0: Map<i32, Seq<Seq<char>>>,
    h1: Map<i32, Seq<Seq<char>>>,
    before: Directory,
    after: Directory,
    post: Request,
    res: Result<(Reply, i32), HandlerError>,
    effect: Effect,
    get_res: Result<(Reply, i32), HandlerError>,
)
    requires
        post.verb is Post,
        post.path@.len() > 0,
        outcome(h0, h1, before, after, post, res, effect),
        res is Ok,
        get_outcome(after, path_view(post.path@), get_res),
    ensures
        answers(get_res, Reply::Value(post.payload)),
{
    let p = path_view(post.path@);
    Resource::lemma_holding(post.payload);
    lemma_get_after_insert(before, after, p, Resource::holding(post.payload));
}

/// A STOP with the id and path of a stream that a STREAM started succeeds,
/// and the client runs the streams it ran before the STREAM.
pub proof fn lemma_stop_after_stream(
    h0: Map<i32, Seq<Seq<char>>>,
    h1: Map<i32, Seq<Seq<char>>>,
    h2: Map<i32, Seq<Seq<char>>>,
    s0: Directory,
    s1: Directory,
    s2: Directory,
    stream: Request,
    res1: Result<(Reply, i32), HandlerError>,
    effect1: Effect,
    stop: Request,
    res2: Result<(Reply, i32), HandlerError>,
    effect2: Effect,
)
    requires
        stream.verb is Stream,
        outcome(h0, h1, s0, s1, stream, res1, effect1),
        res1 is Ok,
        stop.verb is Stop,
        stop.request_id == stream.request_id,
        path_view(stop.path@) == path_view(stream.path@),
        outcome(h1, h2, s1, s2, stop, res2, effect2),
    ensures
        answers(res2, Reply::Nil),
        effect2 matches Effect::StopStream { request_id } && request_id == stream.request_id,
        h2 == h0,
{
    assert(h2 =~= h0);
}

/// A STREAM with the id of a running stream is refused and changes nothing.
pub proof fn lemma_stream_twice_refused(
    h0: Map<i32, Seq<Seq<char>>>,
    h1: Map<i32, Seq<Seq<char>>>,
    h2: Map<i32, Seq<Seq<char>>>,
    s0: Directory,
    s1: Directory,
    s2: Directory,
    first: Request,
    res1: Result<(Reply, i32), HandlerError>,
    effect1: Effect,
    second: Request,
    res2: Result<(Reply, i32), HandlerError>,
    effect2: Effect,
)
    requires
        first.verb is Stream,
        outcome(h0, h1, s0, s1, first, res1, effect1),
        res1 is Ok,
        second.verb is Stream,
        second.request_id == first.request_id,
        outcome(h1, h2, s1, s2, second, res2, effect2),
    ensures
        res2 matches Err(HandlerError::StreamExists(i)) && i == first.request_id,
        h2 == h1,
{
}

/// STREAM and STOP change the stream of their own request id only: every
/// other id keeps its stream and that stream's path.
pub proof fn lemma_other_streams_untouched(
    h0: Map<i32, Seq<Seq<char>>>,
    h1: Map<i32, Seq<Seq<char>>>,
    before: Directory,
    after: Directory,
    message: Request,
    res: Result<(Reply, i32), HandlerError>,
    effect: Effect,
    other: i32,
)
    requires
        message.verb is Stream || message.verb is Stop,
        other != message.request_id,
        outcome(h0, h1, before, after, message, res, effect),
    ensures
        h1.contains_key(other) == h0.contains_key(other),
        h0.contains_key(other) ==> h1[other] == h0[other],
{
}

/// A STREAM records the whole path it names, whatever its length.
pub proof fn lemma_stream_records_whole_path(
    h0: Map<i32, Seq<Seq<char>>>,
    h1: Map<i32, Seq<Seq<char>>>,
    before: Directory,
    after: Directory,
    stream: Request,
    res: Result<(Reply, i32), HandlerError>,
    effect: Effect,
)
    requires
        stream.verb is Stream,
        outcome(h0, h1, before, after, stream, res, effect),
        res is Ok,
    ensures
        h1.contains_key(stream.request_id),
        h1[stream.request_id] == path_view(stream.path@),
        h1[stream.request_id].len() == stream.path@.len(),
{
}

/// A STREAM on a resource with an id that has no running stream starts,
/// even right after another STREAM started under a different id.
pub proof fn lemma_second_stream_starts(
    h0: Map<i32, Seq<Seq<char>>>,
    h1: Map<i32, Seq<Seq<char>>>,
    h2: Map<i32, Seq<Seq<char>>>,
    s0: Directory,
    s1: Directory,
    s2: Directory,
    first: Request,
    res1: Result<(Reply, i32), HandlerError>,
    effect1: Effect,
    second: Request,
    res2: Result<(Reply, i32), HandlerError>,
    effect2: Effect,
)
    requires
        first.verb is Stream,
        outcome(h0, h1, s0, s1, first, res1, effect1),
        res1 is Ok,
        second.verb is Stream,
        second.request_id != first.request_id,
        !h0.contains_key(second.request_id),
        s1.lookup(path_view(second.path@)) matches Some(Node::Resource(_)),
        outcome(h1, h2, s1, s2, second, res2, effect2),
    ensures
        s1.lookup(path_view(second.path@)) matches Some(Node::Resource(r)) && answers(
            res2,
            Reply::Value(r@),
        ),
        h2 == h1.insert(second.request_id, path_view(second.path@)),
        effect2 matches Effect::StartStream { request_id, path: _ } && request_id == second.request_id,
{
}

/// Stopping one stream leaves the others running: after a STOP under one
/// id, a STOP under another running id on that stream's path succeeds.
pub proof fn lemma_stop_keeps_other_stream(
    h0: Map<i32, Seq<Seq<char>>>,
    h1: Map<i32, Seq<Seq<char>>>,
    h2: Map<i32, Seq<Seq<char>>>,
    s0: Directory,
    s1: Directory,
    s2: Directory,
    first: Request,
    res1: Result<(Reply, i32), HandlerError>,
    effect1: Effect,
    second: Request,
    res2: Result<(Reply, i32), HandlerError>,
    effect2: Effect,
)
    requires
        first.verb is Stop,
        outcome(h0, h1, s0, s1, first, res1, effect1),
        second.verb is Stop,
        second.request_id != first.request_id,
        h0.contains_key(second.request_id),
        h0[second.request_id] == path_view(second.path@),
        outcome(h1, h2, s1, s2, second, res2, effect2),
    ensures
        answers(res2, Reply::Nil),
        effect2 matches Effect::StopStream { request_id } && request_id == second.request_id,
        h2 == h0.remove(first.request_id).remove(second.request_id),
{
    lemma_other_streams_untouched(h0, h1, s0, s1, first, res1, effect1, second.request_id);
}

} // verus!
