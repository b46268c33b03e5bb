//! Routing configuration, backend selection, and the steps of serving one
//! connection: taking in what the client sent, picking the upstream, and
//! composing what goes back.
//!
//! Nothing here touches a socket. The caller reads and writes; the functions
//! below decide and compute.

use crate::buffer::{buffer_content, buffer_put, bytes_content};
use crate::decimal::{decimal_string, decimal_text};
use crate::headers::{
    lemma_position_found, lemma_position_is, position, put, same_text, value_of,
};
use crate::http::{decodable, message_fields, request_target, HTTPMethod, HTTPRequest};
use crate::upstream::{
    empty_header_map, header_content, header_key, header_map_put, status_line, status_text,
    value_accepted, HEADER_ROOM,
};
use bytes::BytesMut;
use reqwest::header::HeaderMap;
use reqwest::header::HeaderValue;
use std::sync::Arc;
use vstd::arithmetic::div_mod::{lemma_fundamental_div_mod, lemma_small_mod};
use vstd::hash_map::StringHashMap;
use vstd::prelude::*;
use vstd::string::*;
use vstd::utf8::*;

verus! {

/// The most bytes that one read takes from a client.
pub const MAX_CHUNK_SIZE: usize = 1024;

/// An exact path and where requests for it go.
#[derive(Debug, Clone)]
pub struct Location {
    pub path: String,
    pub proxy_pass: String,
}

/// How a listener finds the upstream for a request.
#[derive(Debug, Clone)]
pub enum Forward {
    /// Every request goes to the next backend of the named pool, in turn.
    LoadBalancer(String),
    /// A request goes where the first location with its exact path says.
    Locations(Vec<Location>),
}

/// One listener: a port and how to forward what arrives there.
#[derive(Debug, Clone)]
pub struct Server {
    pub listen: u32,
    pub forward: Forward,
}

/// The routing configuration: the pools by name, and the listeners.
pub struct Config {
    pub upstream: StringHashMap<Vec<String>>,
    pub servers: Vec<Server>,
}

/// Why a listener cannot be started.
#[derive(Debug, Clone, Copy, PartialEq, Eq)]
pub enum ConfigurationError {
    /// The listener names a pool that the configuration does not have.
    UnknownPool,
    /// The listener's pool has no backend.
    EmptyPool,
}

/// What came of calling the upstream.
#[derive(Debug)]
pub enum UpstreamReply {
    /// The upstream answered, and its body was read to the end.
    Answer { status: u16, body: String },
    /// The call failed, or the body could not be read to the end.
    Failure,
}

/// The addresses of a pool, as texts.
pub open spec fn addresses(pool: Seq<String>) -> Seq<Seq<char>> {
    Seq::new(pool.len(), |i: int| pool[i]@)
}

/// A location table as pairs of path and target, in the configured order.
pub open spec fn table(locations: Seq<Location>) -> Seq<(Seq<char>, Seq<char>)> {
    Seq::new(locations.len(), |i: int| (locations[i].path@, locations[i].proxy_pass@))
}

/// The index that follows `index` in a pool of `size` backends.
pub open spec fn next_index(index: nat, size: nat) -> nat {
    if index + 1 >= size {
        0
    } else {
        index + 1
    }
}

/// The index at which a tracker stands after `selections` selections from a
/// pool of `size` backends, having started at 0.
pub open spec fn index_after(size: nat, selections: nat) -> nat
    decreases selections,
{
    if selections == 0 {
        0
    } else {
        next_index(index_after(size, (selections - 1) as nat), size)
    }
}

/// The URL of `path` at the backend `address`.
pub open spec fn upstream_url_text(address: Seq<char>, path: Seq<char>) -> Seq<char> {
    "http://"@ + address + path
}

/// What the client gets when the upstream could not be had.
pub open spec fn fallback_text() -> Seq<char> {
    "internal server error"@
}

/// What the client gets when no location has the path it asked for: nothing.
pub open spec fn unmatched_text() -> Seq<char> {
    Seq::empty()
}

/// The response made of an upstream's status text and body: the status line, a
/// `Content-Length` that counts the body's bytes, an empty line, the body.
pub open spec fn composed_text(status: Seq<char>, body: Seq<char>) -> Seq<char> {
    "HTTP/1.1 "@ + status + "\r\nContent-Length: "@ + decimal_text(encode_utf8(body).len())
        + "\r\n\r\n"@ + body
}

/// What goes back to the client for `reply`.
pub open spec fn response_text(reply: UpstreamReply) -> Seq<char> {
    match reply {
        UpstreamReply::Answer { status, body } => if 100 <= status <= 999 {
            composed_text(status_text(status), body@)
        } else {
            fallback_text()
        },
        UpstreamReply::Failure => fallback_text(),
    }
}

/// Whether the outbound call can carry every one of `fields`.
pub open spec fn fields_accepted(fields: Seq<(Seq<char>, Seq<char>)>) -> bool {
    forall|i: int|
        0 <= i < fields.len() ==> header_key((#[trigger] fields[i]).0) is Some && value_accepted(
            encode_utf8(fields[i].1),
        )
}

/// The headers of the outbound call that carries `fields`: each field filed
/// under the key of its name, a later field of the same key in place of an
/// earlier one.
pub open spec fn outbound_content(fields: Seq<(Seq<char>, Seq<char>)>) -> Map<Seq<char>, Seq<u8>>
    decreases fields.len(),
{
    if fields.len() == 0 {
        Map::empty()
    } else {
        outbound_content(fields.drop_last()).insert(
            header_key(fields.last().0).unwrap(),
            encode_utf8(fields.last().1),
        )
    }
}

/// Taking a field out does not show once its key is filed anew.
proof fn lemma_outbound_without(
    fields: Seq<(Seq<char>, Seq<char>)>,
    p: int,
    key: Seq<char>,
    value: Seq<u8>,
)
    requires
        0 <= p < fields.len(),
        header_key(fields[p].0).unwrap() == key,
    ensures
        outbound_content(fields.remove(p)).insert(key, value) == outbound_content(fields).insert(
            key,
            value,
        ),
    decreases fields.len(),
{
    let front = fields.drop_last();
    let last_key = header_key(fields.last().0).unwrap();
    let last_value = encode_utf8(fields.last().1);
    if p == fields.len() - 1 {
        assert(fields.remove(p) =~= front);
        assert(outbound_content(front).insert(key, last_value).insert(key, value)
            =~= outbound_content(front).insert(key, value));
    } else {
        let cut = fields.remove(p);
        assert(cut.drop_last() =~= front.remove(p));
        assert(cut.last() == fields.last());
        lemma_outbound_without(front, p, key, value);
        let a = outbound_content(front.remove(p));
        let b = outbound_content(front);
        assert(a.insert(last_key, last_value).insert(key, value) =~= a.insert(key, value).insert(
            last_key,
            last_value,
        ).insert(key, value));
        assert(b.insert(last_key, last_value).insert(key, value) =~= b.insert(key, value).insert(
            last_key,
            last_value,
        ).insert(key, value));
    }
}

/// What goes out follows the writes: writing a header files its value under
/// the key of its name, in place of whatever was on file under that key. So
/// among headers whose names share a key, the one written last goes out.
pub proof fn lemma_outbound_follows_writes(
    fields: Seq<(Seq<char>, Seq<char>)>,
    name: Seq<char>,
    value: Seq<char>,
)
    ensures
        outbound_content(put(fields, name, value)) == outbound_content(fields).insert(
            header_key(name).unwrap(),
            encode_utf8(value),
        ),
{
    let after = put(fields, name, value);
    lemma_position_found(fields, name);
    match position(fields, name) {
        Some(p) => {
            let kept = fields.remove(p);
            assert(after.drop_last() =~= kept);
            assert(after.last() == (name, value));
            lemma_outbound_without(fields, p, header_key(name).unwrap(), encode_utf8(value));
        },
        None => {
            assert(after.drop_last() =~= fields);
            assert(after.last() == (name, value));
        },
    }
}

/// Round robin visits the backends in order and starts over after the last:
/// the selection that `selections` others went before falls on index
/// `selections % size`. So `size` selections in a row skip and repeat nothing.
pub proof fn lemma_round_robin_order(size: nat, selections: nat)
    requires
        size > 0,
    ensures
        index_after(size, selections) == selections % size,
    decreases selections,
{
    if selections == 0 {
        lemma_small_mod(0, size);
    } else {
        let before = (selections - 1) as nat;
        lemma_round_robin_order(size, before);
        lemma_fundamental_div_mod(before as int, size as int);
        lemma_fundamental_div_mod(selections as int, size as int);
        let q = before as int / size as int;
        let r = before as int % size as int;
        if r + 1 >= size {
            assert(selections as int == size as int * (q + 1)) by (nonlinear_arith)
                requires
                    selections as int == size as int * q + r + 1,
                    r + 1 == size as int,
            ;
            lemma_mod_of_multiple(size as int, q + 1);
        } else {
            lemma_mod_of_sum(size as int, q, r + 1);
        }
    }
}

/// A multiple of `d` leaves no remainder.
proof fn lemma_mod_of_multiple(d: int, q: int)
    requires
        d > 0,
    ensures
        (d * q) % d == 0,
{
    lemma_fundamental_div_mod(d * q, d);
    let k = (d * q) / d;
    let r = (d * q) % d;
    assert(r == 0) by (nonlinear_arith)
        requires
            d > 0,
            d * q == d * k + r,
            0 <= r < d,
    ;
}

/// A remainder below `d` on top of a multiple of `d` is the remainder.
proof fn lemma_mod_of_sum(d: int, q: int, r: int)
    requires
        d > 0,
        0 <= r < d,
    ensures
        (d * q + r) % d == r,
{
    lemma_fundamental_div_mod(d * q + r, d);
    let k = (d * q + r) / d;
    let m = (d * q + r) % d;
    assert(m == r) by (nonlinear_arith)
        requires
            d > 0,
            d * q + r == d * k + m,
            0 <= r < d,
            0 <= m < d,
    ;
}

/// The round-robin state of one load-balanced listener: its pool, and the
/// index of the backend that the next request goes to.
#[derive(Debug)]
pub struct RoundRobinTracker {
    backends: Vec<String>,
    index: usize,
}

impl RoundRobinTracker {
    #[verifier::type_invariant]
    spec fn in_range(self) -> bool {
        self.index < self.backends@.len()
    }

    /// The addresses of the pool, in the configured order.
    pub closed spec fn pool(&self) -> Seq<Seq<char>> {
        addresses(self.backends@)
    }

    /// The index of the backend that the next request goes to.
    pub closed spec fn current(&self) -> nat {
        self.index as nat
    }

    /// A tracker for the pool `backends`, standing at its first backend.
    /// A pool without backends has no tracker.
    pub fn new(backends: Vec<String>) -> (made: Result<Self, ConfigurationError>)
        ensures
            made is Ok <==> backends@.len() > 0,
            made is Err ==> made == Err::<Self, ConfigurationError>(ConfigurationError::EmptyPool),
            made matches Ok(tracker) ==> tracker.current() == 0 && tracker.pool() == addresses(
                backends@,
            ),
    {
        if backends.len() == 0 {
            Err(ConfigurationError::EmptyPool)
        } else {
            Ok(RoundRobinTracker { backends, index: 0 })
        }
    }

    /// The number of backends in the pool. It is never zero.
    pub fn size(&self) -> (n: usize)
        ensures
            n == self.pool().len(),
            n > 0,
    {
        proof {
            use_type_invariant(self);
        }
        self.backends.len()
    }

    /// The index of the backend that the next request goes to.
    pub fn index(&self) -> (i: usize)
        ensures
            i == self.current(),
            i < self.pool().len(),
    {
        proof {
            use_type_invariant(self);
        }
        self.index
    }

    /// Takes the backend whose turn it is, and moves on to the next one,
    /// back to the first after the last.
    pub fn select(&mut self) -> (address: String)
        ensures
            old(self).current() < old(self).pool().len(),
            address@ == old(self).pool()[old(self).current() as int],
            final(self).pool() == old(self).pool(),
            final(self).current() == next_index(old(self).current(), old(self).pool().len()),
    {
        proof {
            use_type_invariant(&*self);
        }
        let size: usize = self.backends.len();
        let address = self.backends[self.index].clone();
        if self.index + 1 >= size {
            self.index = 0;
        } else {
            self.index = self.index + 1;
        }
        address
    }
}

/// The routing state of one listener.
#[derive(Debug)]
pub enum BackendSelector {
    /// Round robin over a pool.
    Balanced(RoundRobinTracker),
    /// First exact match in a location table.
    Table(Vec<Location>),
}

impl BackendSelector {
    /// Where a request for `path` goes, as things stand: to the pool's current
    /// backend, or where the first location with that exact path says. A
    /// table that does not have the path gives no target.
    pub open spec fn target(self, path: Seq<char>) -> Option<Seq<char>> {
        match self {
            BackendSelector::Balanced(tracker) => Some(
                upstream_url_text(tracker.pool()[tracker.current() as int], path),
            ),
            BackendSelector::Table(locations) => value_of(table(locations@), path),
        }
    }

    /// Whether `self` is what `before` becomes by one selection: a pool's
    /// index moves on by one place, a table stays as it is.
    pub open spec fn follows(self, before: Self) -> bool {
        match before {
            BackendSelector::Balanced(earlier) => {
                &&& self matches BackendSelector::Balanced(later)
                &&& later.pool() == earlier.pool()
                &&& later.current() == next_index(earlier.current(), earlier.pool().len())
            },
            BackendSelector::Table(_) => self == before,
        }
    }

    /// Resolves the upstream URL for `request`, or finds that no location
    /// matches its path. A pool always gives a URL.
    pub fn select(&mut self, request: &HTTPRequest) -> (url: Option<String>)
        ensures
            url is Some <==> old(self).target(request.path@) is Some,
            url matches Some(text) ==> old(self).target(request.path@) == Some(text@),
            final(self).follows(*old(self)),
    {
        match self {
            BackendSelector::Balanced(tracker) => {
                let address = tracker.select();
                Some(upstream_url(address.as_str(), request.path.as_str()))
            },
            BackendSelector::Table(locations) => {
                match proxy_target(locations, request.path.as_str()) {
                    Some(target) => Some(target.to_owned()),
                    None => None,
                }
            },
        }
    }
}

/// The URL of `path` at the backend `address`.
pub fn upstream_url(address: &str, path: &str) -> (url: String)
    ensures
        url@ == upstream_url_text(address@, path@),
{
    let mut url = "http://".to_owned();
    url.append(address);
    url.append(path);
    url
}

/// Where the first location with exactly the path `path` sends its requests.
pub fn proxy_target<'a>(locations: &'a Vec<Location>, path: &str) -> (target: Option<&'a str>)
    ensures
        target is Some <==> value_of(table(locations@), path@) is Some,
        target matches Some(text) ==> value_of(table(locations@), path@) == Some(text@),
{
    let n: usize = locations.len();
    let mut i: usize = 0;
    while i < n
        invariant
            n == locations@.len(),
            i <= n,
            forall|j: int| 0 <= j < i ==> (#[trigger] table(locations@)[j]).0 != path@,
        decreases n - i,
    {
        if same_text(locations[i].path.as_str(), path) {
            proof {
                assert(table(locations@)[i as int].0 == path@);
                lemma_position_is(table(locations@), path@, i as int);
            }
            return Some(locations[i].proxy_pass.as_str());
        }
        i += 1;
    }
    proof {
        lemma_position_found(table(locations@), path@);
    }
    None
}

/// A copy of `pool`, address by address.
fn copy_pool(pool: &Vec<String>) -> (copy: Vec<String>)
    ensures
        copy@.len() == pool@.len(),
        addresses(copy@) == addresses(pool@),
{
    let mut copy: Vec<String> = Vec::new();
    let n: usize = pool.len();
    let mut i: usize = 0;
    while i < n
        invariant
            n == pool@.len(),
            i <= n,
            copy@.len() == i,
            forall|j: int| 0 <= j < i ==> copy@[j]@ == pool@[j]@,
        decreases n - i,
    {
        copy.push(pool[i].clone());
        i += 1;
    }
    assert(addresses(copy@) =~= addresses(pool@));
    copy
}

/// A copy of `locations`, entry by entry.
fn copy_locations(locations: &Vec<Location>) -> (copy: Vec<Location>)
    ensures
        table(copy@) == table(locations@),
{
    let mut copy: Vec<Location> = Vec::new();
    let n: usize = locations.len();
    let mut i: usize = 0;
    while i < n
        invariant
            n == locations@.len(),
            i <= n,
            copy@.len() == i,
            forall|j: int|
                0 <= j < i ==> copy@[j].path@ == locations@[j].path@ && copy@[j].proxy_pass@
                    == locations@[j].proxy_pass@,
        decreases n - i,
    {
        copy.push(
            Location {
                path: locations[i].path.clone(),
                proxy_pass: locations[i].proxy_pass.clone(),
            },
        );
        i += 1;
    }
    assert(table(copy@) =~= table(locations@));
    copy
}

/// The response to a request that no location matches: an empty text. It is
/// an answer like any other, and no error.
pub fn unmatched_response() -> (text: String)
    ensures
        text@ == unmatched_text(),
{
    String::new()
}

/// The response made of an upstream's status text and body.
pub fn compose_response(status: &str, body: &str) -> (text: String)
    ensures
        text@ == composed_text(status@, body@),
{
    let length = decimal_string(body.as_bytes().len());
    let mut text = "HTTP/1.1 ".to_owned();
    text.append(status);
    text.append("\r\nContent-Length: ");
    text.append(length.as_str());
    text.append("\r\n\r\n");
    text.append(body);
    assert(text@ =~= composed_text(status@, body@));
    text
}

/// Takes one chunk that was read from the client into `buffer`, and says
/// whether the message is complete. It is complete as soon as a read brings
/// fewer bytes than `MAX_CHUNK_SIZE`, none at all included. A message whose
/// length is a multiple of `MAX_CHUNK_SIZE` therefore only ends with the empty
/// read that follows when the client closes.
pub fn accept_chunk(buffer: &mut BytesMut, chunk: &[u8]) -> (complete: bool)
    requires
        buffer_content(*old(buffer)).len() + chunk@.len() <= isize::MAX,
    ensures
        buffer_content(*final(buffer)) == buffer_content(*old(buffer)) + chunk@,
        complete <==> chunk@.len() < MAX_CHUNK_SIZE,
{
    buffer_put(buffer, chunk);
    chunk.len() < MAX_CHUNK_SIZE
}

/// The header map for the outbound call that carries the headers of
/// `request`. There is one whenever every header's name and value can go out
/// and the headers are no more than `HEADER_ROOM`; there is none where a name
/// or a value cannot go out.
pub fn outbound_headers(request: &HTTPRequest) -> (headers: Option<HeaderMap<HeaderValue>>)
    ensures
        headers matches Some(carried) ==> fields_accepted(request.headers@) && header_content(
            carried,
        ) == outbound_content(request.headers@),
        fields_accepted(request.headers@) && request.headers@.len() <= HEADER_ROOM
            ==> headers is Some,
        !fields_accepted(request.headers@) ==> headers is None,
{
    let mut carried = empty_header_map();
    let n: usize = request.headers.len();
    let mut i: usize = 0;
    assert(request.headers@.take(0) =~= Seq::empty());
    assert(header_content(carried) =~= outbound_content(request.headers@.take(0)));
    while i < n
        invariant
            n == request.headers@.len(),
            i <= n,
            fields_accepted(request.headers@.take(i as int)),
            header_content(carried) == outbound_content(request.headers@.take(i as int)),
            header_content(carried).dom().finite(),
            header_content(carried).dom().len() <= i,
        decreases n - i,
    {
        let ghost fields = request.headers@;
        let done = header_map_put(
            &mut carried,
            request.headers.name_at(i),
            request.headers.value_at(i),
        );
        if !done {
            assert(fields_accepted(fields) ==> header_key(fields[i as int].0) is Some
                && value_accepted(encode_utf8(fields[i as int].1)));
            return None;
        }
        proof {
            let upto = fields.take(i + 1);
            assert(upto.drop_last() =~= fields.take(i as int));
            assert(upto.last() == fields[i as int]);
            assert forall|k: int| 0 <= k < upto.len() implies header_key(
                (#[trigger] upto[k]).0,
            ) is Some && value_accepted(encode_utf8(upto[k].1)) by {
                if k < i {
                    assert(fields.take(i as int)[k] == upto[k]);
                }
            }
        }
        i += 1;
    }
    assert(request.headers@.take(n as int) =~= request.headers@);
    Some(carried)
}

impl Config {
    /// A configuration without pools or listeners.
    pub fn new() -> (cfg: Self)
        ensures
            cfg.upstream@ == Map::<Seq<char>, Vec<String>>::empty(),
            cfg.servers@ == Seq::<Server>::empty(),
    {
        Config { upstream: StringHashMap::new(), servers: Vec::new() }
    }

    /// Whether the listener that forwards by `forward` can be started: a
    /// load balancer's pool is there and has a backend.
    pub open spec fn startable(&self, forward: Forward) -> bool {
        forward matches Forward::LoadBalancer(name) ==> self.upstream@.contains_key(name@)
            && self.upstream@[name@]@.len() > 0
    }

    /// Whether every listener can be started: each pool that a load balancer
    /// names is there and has a backend.
    pub open spec fn well_formed(&self) -> bool {
        forall|i: int|
            0 <= i < self.servers@.len() ==> self.startable((#[trigger] self.servers@[i]).forward)
    }

    /// Checks that every listener can be started.
    pub fn is_well_formed(&self) -> (ok: bool)
        ensures
            ok == self.well_formed(),
    {
        let n: usize = self.servers.len();
        let mut i: usize = 0;
        while i < n
            invariant
                n == self.servers@.len(),
                i <= n,
                forall|j: int| 0 <= j < i ==> self.startable((#[trigger] self.servers@[j]).forward),
            decreases n - i,
        {
            let ready = match &self.servers[i].forward {
                Forward::LoadBalancer(name) => self.pool(name.as_str()).is_ok(),
                Forward::Locations(_) => true,
            };
            if !ready {
                assert(!self.startable(self.servers@[i as int].forward));
                return false;
            }
            i += 1;
        }
        true
    }

    /// The pool named `name`.
    pub fn pool(&self, name: &str) -> (found: Result<&Vec<String>, ConfigurationError>)
        ensures
            found is Ok <==> self.upstream@.contains_key(name@) && self.upstream@[name@]@.len() > 0,
            found matches Ok(pool) ==> *pool == self.upstream@[name@],
            found matches Err(e) ==> (e == ConfigurationError::UnknownPool
                <==> !self.upstream@.contains_key(name@)),
    {
        match self.upstream.get(name) {
            None => Err(ConfigurationError::UnknownPool),
            Some(pool) => {
                if pool.len() == 0 {
                    Err(ConfigurationError::EmptyPool)
                } else {
                    Ok(pool)
                }
            },
        }
    }
}

/// The proxy: the routing configuration that its listeners share.
pub struct Proxy {
    pub cfg: Config,
}

impl Proxy {
    /// A proxy over `cfg`, to be shared among the listeners.
    pub fn new(cfg: Config) -> (proxy: Arc<Self>)
        ensures
            proxy.cfg == cfg,
    {
        Arc::new(Proxy { cfg })
    }

    /// The routing state that a listener starts with: the named pool with the
    /// first backend next, or the location table. A load balancer whose pool
    /// is unknown or empty cannot start.
    pub fn selector(&self, forward: &Forward) -> (made: Result<
        BackendSelector,
        ConfigurationError,
    >)
        ensures
            made is Ok <==> self.cfg.startable(*forward),
            made matches Err(e) ==> forward matches Forward::LoadBalancer(name) && (e
                == ConfigurationError::UnknownPool <==> !self.cfg.upstream@.contains_key(name@)),
            made matches Ok(selector) ==> match *forward {
                Forward::LoadBalancer(name) => {
                    &&& selector matches BackendSelector::Balanced(tracker)
                    &&& tracker.current() == 0
                    &&& tracker.pool() == addresses(self.cfg.upstream@[name@]@)
                },
                Forward::Locations(locations) => {
                    &&& selector matches BackendSelector::Table(copy)
                    &&& table(copy@) == table(locations@)
                },
            },
    {
        match forward {
            Forward::LoadBalancer(name) => {
                match self.cfg.pool(name.as_str()) {
                    Err(e) => Err(e),
                    Ok(pool) => {
                        match RoundRobinTracker::new(copy_pool(pool)) {
                            Ok(tracker) => Ok(BackendSelector::Balanced(tracker)),
                            Err(e) => Err(e),
                        }
                    },
                }
            },
            Forward::Locations(locations) => Ok(
                BackendSelector::Table(copy_locations(locations)),
            ),
        }
    }

    /// Decodes the request that was read into `buffer`. There is none where
    /// the bytes are no text or the first line has no path.
    pub fn read_request(&self, buffer: &BytesMut) -> (request: Option<HTTPRequest>)
        ensures
            request is Some <==> decodable(buffer_content(*buffer)),
            request matches Some(r) ==> {
                &&& r.method == HTTPMethod::Get
                &&& r.protocol@ == "HTTP/1.1"@
                &&& Some(r.path@) == match request_target(buffer_content(*buffer)) {
                    Some(target) => Some(decode_utf8(target)),
                    None => None,
                }
                &&& r.headers@ == message_fields(buffer_content(*buffer))
                &&& bytes_content(r.body) == Seq::<u8>::empty()
            },
    {
        let mut request = HTTPRequest::new();
        match request.parse(buffer) {
            Ok(()) => Some(request),
            Err(_) => None,
        }
    }

    /// The text that goes back to the client for what came of the upstream
    /// call: the composed response for an answer, the fallback text for a
    /// failure. An answer whose status is no status counts as a failure.
    pub fn forward_request(&self, reply: UpstreamReply) -> (text: String)
        ensures
            text@ == response_text(reply),
    {
        match reply {
            UpstreamReply::Answer { status, body } => match status_line(status) {
                Some(line) => compose_response(line.as_str(), body.as_str()),
                None => "internal server error".to_owned(),
            },
            UpstreamReply::Failure => "internal server error".to_owned(),
        }
    }
}

} // verus!
