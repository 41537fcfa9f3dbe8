//! The decision core of the smart-HTTP remote. A worker thread owns a
//! blocking HTTP client and serves one request at a time; the caller talks to
//! it through three byte pipes per request (upload body, headers, response
//! body). Everything the worker decides — verb, header splitting, status
//! classification, what goes down which pipe, when the worker dies — is the
//! plain logic verified here; the thread, the pipes and the client itself are
//! the host's side of the bargain.

use vstd::prelude::*;

use crate::IoErrorKind;

verus! {

/// The connect timeout, in seconds, the worker configures its client with.
pub const CONNECT_TIMEOUT_SECS: u64 = 20;

/// How a request's upload body is shaped.
#[derive(Clone, Copy, Debug, PartialEq, Eq, Structural)]
pub enum PostBodyDataKind {
    /// The whole body is drained into memory before the request is built.
    BoundedAndFitsIntoMemory,
    /// The body is streamed from the upload pipe as the request runs.
    Unbounded,
}

/// The options snapshot cloned into each request. The worker only reads
/// whether a request-configuration hook is installed; the hook itself runs on
/// the host's side.
#[derive(Clone, Copy, Debug, PartialEq, Eq, Structural)]
pub struct HttpOptions {
    pub has_configure_request: bool,
}

impl Default for HttpOptions {
    /// A fresh snapshot carries no configuration hook.
    fn default() -> (r: Self)
        ensures
            !r.has_configure_request,
    {
        HttpOptions { has_configure_request: false }
    }
}

/// The error a remote's worker dies with.
#[derive(Clone, Copy, Debug, PartialEq, Eq, Structural)]
pub enum Error {
    /// A transport-level failure of the HTTP client: whether it was a
    /// timeout, a failure to connect, and the response status if one arrived.
    Reqwest { timeout: bool, connect: bool, status: Option<u16> },
    /// The upload pipe could not be drained for a bounded body.
    ReadPostBody { kind: IoErrorKind },
    /// The user's request-configuration hook rejected the request.
    ConfigureRequest,
}

/// Whether retrying the request may help: a timeout, a connect failure, or a
/// server-side (5xx) status.
pub open spec fn spec_is_spurious(e: Error) -> bool {
    match e {
        Error::Reqwest { timeout, connect, status } => timeout || connect || (match status {
            Some(s) => 500 <= s < 600,
            None => false,
        }),
        Error::ReadPostBody { .. } => false,
        Error::ConfigureRequest => false,
    }
}

impl Error {
    /// Classifies this error as retriable or terminal.
    pub fn is_spurious(&self) -> (r: bool)
        ensures
            r == spec_is_spurious(*self),
    {
        match self {
            Error::Reqwest { timeout, connect, status } => *timeout || *connect || (match status {
                Some(s) => 500 <= *s && *s < 600,
                None => false,
            }),
            _ => false,
        }
    }
}

/// Whether a status is a success the body of which is streamed.
pub open spec fn spec_is_success(status: u16) -> bool {
    200 <= status < 300
}

/// The I/O error kind a non-success status is reported as: 401 denies
/// permission, a server error aborts the connection, anything else is
/// uncategorised.
pub open spec fn spec_status_error_kind(status: u16) -> IoErrorKind {
    if status == 401 {
        IoErrorKind::PermissionDenied
    } else if 500 <= status < 600 {
        IoErrorKind::ConnectionAborted
    } else {
        IoErrorKind::Other
    }
}

/// Maps a non-success status to the error kind sent down the headers pipe.
pub fn status_error_kind(status: u16) -> (k: IoErrorKind)
    ensures
        k == spec_status_error_kind(status),
{
    if status == 401 {
        IoErrorKind::PermissionDenied
    } else if 500 <= status && status < 600 {
        IoErrorKind::ConnectionAborted
    } else {
        IoErrorKind::Other
    }
}

/// The byte a header line is split at.
pub const COLON: u8 = 58;

/// Blank bytes trimmed off a header value.
pub open spec fn is_blank(b: u8) -> bool {
    b == 32 || b == 9
}

/// The position of the first colon in `s`, or `s.len()` if there is none.
pub open spec fn first_colon(s: Seq<u8>) -> int
    decreases s.len(),
{
    if s.len() == 0 {
        0
    } else if s[0] == COLON {
        0
    } else {
        1 + first_colon(s.skip(1))
    }
}

proof fn lemma_first_colon(s: Seq<u8>)
    ensures
        0 <= first_colon(s) <= s.len(),
        first_colon(s) < s.len() ==> s[first_colon(s)] == COLON,
        forall|k: int| 0 <= k < first_colon(s) ==> s[k] != COLON,
    decreases s.len(),
{
    if s.len() == 0 {
    } else if s[0] == COLON {
    } else {
        lemma_first_colon(s.skip(1));
        assert forall|k: int| 0 <= k < first_colon(s) implies s[k] != COLON by {
            if k > 0 {
                assert(s.skip(1)[k - 1] == s[k]);
                assert(s.skip(1)[k - 1] != COLON);
            }
        }
    }
}

/// `s` without leading blanks.
pub open spec fn trim_start(s: Seq<u8>) -> Seq<u8>
    decreases s.len(),
{
    if s.len() > 0 && is_blank(s[0]) {
        trim_start(s.skip(1))
    } else {
        s
    }
}

/// `s` without trailing blanks.
pub open spec fn trim_end(s: Seq<u8>) -> Seq<u8>
    decreases s.len(),
{
    if s.len() > 0 && is_blank(s.last()) {
        trim_end(s.drop_last())
    } else {
        s
    }
}

/// `s` without leading and trailing blanks.
pub open spec fn trimmed(s: Seq<u8>) -> Seq<u8> {
    trim_end(trim_start(s))
}

proof fn lemma_trim_start_at(s: Seq<u8>, lo: int)
    requires
        0 <= lo <= s.len(),
        forall|k: int| 0 <= k < lo ==> is_blank(s[k]),
        lo < s.len() ==> !is_blank(s[lo]),
    ensures
        trim_start(s) == s.skip(lo),
    decreases lo,
{
    if lo == 0 {
        assert(s.skip(0) =~= s);
    } else {
        assert(is_blank(s[0]));
        lemma_trim_start_at(s.skip(1), lo - 1);
        assert(s.skip(1).skip(lo - 1) =~= s.skip(lo));
    }
}

proof fn lemma_trim_end_at(s: Seq<u8>, hi: int)
    requires
        0 <= hi <= s.len(),
        forall|k: int| hi <= k < s.len() ==> is_blank(s[k]),
        hi > 0 ==> !is_blank(s[hi - 1]),
    ensures
        trim_end(s) == s.take(hi),
    decreases s.len() - hi,
{
    if hi == s.len() {
        assert(s.take(hi) =~= s);
    } else {
        assert(is_blank(s.last()));
        lemma_trim_end_at(s.drop_last(), hi);
        assert(s.drop_last().take(hi) =~= s.take(hi));
    }
}

/// Splits a header line at its first colon into a name and a value, the value
/// with surrounding blanks removed. A line without a colon is the caller's
/// programming error, so it is ruled out here.
pub fn split_header_line(line: &Vec<u8>) -> (r: (Vec<u8>, Vec<u8>))
    requires
        exists|i: int| 0 <= i < line@.len() && line@[i] == COLON,
    ensures
        r.0@ == line@.take(first_colon(line@)),
        r.1@ == trimmed(line@.skip(first_colon(line@) + 1)),
{
    let ghost s = line@;
    proof {
        lemma_first_colon(s);
    }
    let n = line.len();
    let mut c: usize = 0;
    while line[c] != COLON
        invariant
            0 <= c < n == line@.len(),
            s == line@,
            forall|k: int| 0 <= k < c ==> s[k] != COLON,
            exists|i: int| 0 <= i < s.len() && s[i] == COLON,
        decreases n - c,
    {
        proof {
            if c + 1 == n {
                assert(forall|k: int| 0 <= k < n ==> s[k] != COLON);
            }
        }
        c = c + 1;
    }
    proof {
        assert(first_colon(s) == c as int) by {
            lemma_first_colon(s);
            if first_colon(s) < c as int {
                assert(s[first_colon(s)] == COLON);
            }
            if first_colon(s) > c as int {
                assert(s[c as int] != COLON);
            }
        }
    }
    let mut name: Vec<u8> = Vec::new();
    let mut i: usize = 0;
    while i < c
        invariant
            0 <= i <= c < line@.len(),
            s == line@,
            name@ == s.take(i as int),
        decreases c - i,
    {
        name.push(line[i]);
        i = i + 1;
    }
    // Trim the value: find its first and last non-blank bytes.
    let rest_lo = c + 1;
    let ghost rest = s.skip(rest_lo as int);
    let mut lo: usize = rest_lo;
    while lo < n && (line[lo] == 32 || line[lo] == 9)
        invariant
            rest_lo <= lo <= n == line@.len(),
            s == line@,
            forall|k: int| rest_lo <= k < lo ==> is_blank(s[k]),
        decreases n - lo,
    {
        lo = lo + 1;
    }
    let mut hi: usize = n;
    while hi > lo && (line[hi - 1] == 32 || line[hi - 1] == 9)
        invariant
            lo <= hi <= n == line@.len(),
            s == line@,
            forall|k: int| hi <= k < n ==> is_blank(s[k]),
        decreases hi,
    {
        hi = hi - 1;
    }
    let mut value: Vec<u8> = Vec::new();
    let mut t: usize = lo;
    while t < hi
        invariant
            lo <= t <= hi <= line@.len(),
            s == line@,
            value@ == s.subrange(lo as int, t as int),
        decreases hi - t,
    {
        value.push(line[t]);
        t = t + 1;
    }
    proof {
        assert(forall|k: int| 0 <= k < lo - rest_lo ==> is_blank(rest[k]));
        assert(lo < n ==> !is_blank(rest[lo - rest_lo]));
        lemma_trim_start_at(rest, lo - rest_lo as int);
        let tail = rest.skip(lo - rest_lo as int);
        assert(tail =~= s.skip(lo as int));
        assert(forall|k: int| hi - lo <= k < tail.len() ==> is_blank(tail[k]));
        assert(hi > lo ==> !is_blank(tail[hi - lo - 1]));
        lemma_trim_end_at(tail, hi - lo as int);
        assert(tail.take(hi - lo as int) =~= s.subrange(lo as int, hi as int));
        assert(value@ == s.subrange(lo as int, hi as int));
    }
    (name, value)
}

/// A request as the worker receives it: everything the caller's `get` or
/// `post` assembled, plus the options snapshot taken at that moment.
pub struct Request {
    pub url: Vec<u8>,
    pub headers: Vec<(Vec<u8>, Vec<u8>)>,
    pub upload_body_kind: Option<PostBodyDataKind>,
    pub config: HttpOptions,
}

/// What executing one exchange came to, as seen from the worker: either a
/// response arrived (with a status, its headers, and whether streaming its
/// body failed midway), or the transport failed outright.
pub enum FetchOutcome {
    Response {
        status: u16,
        headers: Vec<(Vec<u8>, Vec<u8>)>,
        body_copy_error: Option<IoErrorKind>,
    },
    Transport { timeout: bool, connect: bool },
}

/// The host-side events one request's handling can run into.
pub struct WorkerEvents {
    /// Failure draining the upload pipe for a bounded body.
    pub upload_read_error: Option<IoErrorKind>,
    /// The user's configuration hook rejected the request.
    pub configure_reject: bool,
    /// What executing the exchange came to.
    pub fetch: FetchOutcome,
}

/// What the worker put down the headers pipe.
pub enum HeadersSignal {
    /// The serialized response headers, `name:value` lines, then end of pipe.
    Bytes(Vec<u8>),
    /// The in-band error a non-success or failed exchange is reported as.
    IoError(IoErrorKind),
}

/// What the worker did to the response-body pipe.
#[derive(Clone, Copy, Debug, PartialEq, Eq, Structural)]
pub enum BodySignal {
    /// The body was streamed to its end.
    Streamed,
    /// Streaming failed midway; the error went down the pipe's error slot.
    StreamError(IoErrorKind),
    /// The pipe was never written: no byte arrives on it.
    Untouched,
}

/// The observable outcome of one request.
pub struct RequestEffect {
    /// Whether the verb was POST (a body was to be uploaded) rather than GET.
    pub used_post: bool,
    pub headers: HeadersSignal,
    pub body: BodySignal,
}

/// Response headers as they are serialized into the headers pipe:
/// `name:value` and a line separator for each, in arrival order.
pub open spec fn serialized_headers(hs: Seq<(Vec<u8>, Vec<u8>)>) -> Seq<u8>
    decreases hs.len(),
{
    if hs.len() == 0 {
        Seq::empty()
    } else {
        hs[0].0@ + seq![COLON] + hs[0].1@ + seq![10u8] + serialized_headers(hs.skip(1))
    }
}

/// The in-band error the headers pipe carries for these events, if any.
pub open spec fn spec_headers_error(ev: WorkerEvents) -> Option<IoErrorKind> {
    match ev.fetch {
        FetchOutcome::Transport { .. } => Some(IoErrorKind::Other),
        FetchOutcome::Response { status, .. } => if spec_is_success(status) {
            None
        } else {
            Some(spec_status_error_kind(status))
        },
    }
}

/// Whether handling the request kills the worker, and with which error.
pub open spec fn spec_worker_death(req: Request, ev: WorkerEvents) -> Option<Error> {
    if req.upload_body_kind == Some(PostBodyDataKind::BoundedAndFitsIntoMemory)
        && ev.upload_read_error is Some {
        Some(Error::ReadPostBody { kind: ev.upload_read_error->0 })
    } else if req.config.has_configure_request && ev.configure_reject {
        Some(Error::ConfigureRequest)
    } else {
        None
    }
}

/// What one handled request observably does.
pub open spec fn effect_matches(req: Request, ev: WorkerEvents, e: RequestEffect) -> bool {
    &&& e.used_post == (req.upload_body_kind is Some)
    &&& match spec_headers_error(ev) {
        Some(k) => e.headers matches HeadersSignal::IoError(k2) && k2 == k && e.body
            == BodySignal::Untouched,
        None => {
            &&& e.headers matches HeadersSignal::Bytes(b) && (ev.fetch matches
            FetchOutcome::Response { headers, .. } && b@ == serialized_headers(headers@))
            &&& e.body == (match ev.fetch {
                FetchOutcome::Response { body_copy_error: Some(k), .. } => BodySignal::StreamError(
                    k,
                ),
                _ => BodySignal::Streamed,
            })
        },
    }
}

/// Writes the response headers as the worker serializes them into the
/// headers pipe.
pub fn serialize_headers(hs: &Vec<(Vec<u8>, Vec<u8>)>) -> (r: Vec<u8>)
    ensures
        r@ == serialized_headers(hs@),
{
    let ghost full = hs@;
    let mut out: Vec<u8> = Vec::new();
    let mut i: usize = 0;
    proof {
        assert(full.skip(0) =~= full);
        assert(Seq::<u8>::empty() + serialized_headers(full) =~= serialized_headers(full));
    }
    while i < hs.len()
        invariant
            0 <= i <= hs.len(),
            full == hs@,
            serialized_headers(full) == out@ + serialized_headers(full.skip(i as int)),
        decreases hs.len() - i,
    {
        let ghost before = out@;
        let ghost row = full.skip(i as int);
        proof {
            assert(row[0] == full[i as int]);
            assert(row.skip(1) =~= full.skip(i as int + 1));
        }
        let name = &hs[i].0;
        let mut t: usize = 0;
        while t < name.len()
            invariant
                0 <= t <= name.len(),
                full == hs@,
                0 <= i < hs.len(),
                name == &hs[i as int].0,
                out@ == before + name@.take(t as int),
            decreases name.len() - t,
        {
            out.push(name[t]);
            t = t + 1;
        }
        out.push(COLON);
        let ghost mid = out@;
        let value = &hs[i].1;
        let mut u: usize = 0;
        while u < value.len()
            invariant
                0 <= u <= value.len(),
                full == hs@,
                0 <= i < hs.len(),
                value == &hs[i as int].1,
                out@ == mid + value@.take(u as int),
            decreases value.len() - u,
        {
            out.push(value[u]);
            u = u + 1;
        }
        out.push(10);
        proof {
            assert(name@.take(name@.len() as int) =~= name@);
            assert(value@.take(value@.len() as int) =~= value@);
            assert(out@ =~= before + (full[i as int].0@ + seq![COLON] + full[i as int].1@
                + seq![10u8]));
            assert(before + (full[i as int].0@ + seq![COLON] + full[i as int].1@ + seq![10u8])
                + serialized_headers(full.skip(i as int + 1)) =~= before + serialized_headers(
                full.skip(i as int),
            ));
        }
        i = i + 1;
    }
    proof {
        assert(full.skip(full.len() as int) =~= Seq::<(Vec<u8>, Vec<u8>)>::empty());
        assert(out@ + Seq::<u8>::empty() =~= out@);
    }
    out
}

/// Handles one request exactly as the worker does: drain or attach the
/// upload body, run the configuration hook, execute, then report the status
/// or the headers and body down the pipes. `Err` is the error the worker
/// thread dies with; any other trouble is delivered in-band and the worker
/// lives on to serve the next request.
pub fn process_request(req: &Request, ev: &WorkerEvents) -> (r: Result<RequestEffect, Error>)
    ensures
        match r {
            Ok(e) => spec_worker_death(*req, *ev) is None && effect_matches(*req, *ev, e),
            Err(err) => spec_worker_death(*req, *ev) == Some(err),
        },
{
    let used_post = req.upload_body_kind.is_some();
    if matches!(req.upload_body_kind, Some(PostBodyDataKind::BoundedAndFitsIntoMemory)) {
        if let Some(kind) = ev.upload_read_error {
            return Err(Error::ReadPostBody { kind });
        }
    }
    if req.config.has_configure_request && ev.configure_reject {
        return Err(Error::ConfigureRequest);
    }
    match &ev.fetch {
        FetchOutcome::Transport { .. } => Ok(RequestEffect {
            used_post,
            headers: HeadersSignal::IoError(IoErrorKind::Other),
            body: BodySignal::Untouched,
        }),
        FetchOutcome::Response { status, headers, body_copy_error } => {
            if !(200 <= *status && *status < 300) {
                let kind = status_error_kind(*status);
                Ok(RequestEffect {
                    used_post,
                    headers: HeadersSignal::IoError(kind),
                    body: BodySignal::Untouched,
                })
            } else {
                let bytes = serialize_headers(headers);
                let body = match body_copy_error {
                    Some(k) => BodySignal::StreamError(*k),
                    None => BodySignal::Streamed,
                };
                Ok(RequestEffect { used_post, headers: HeadersSignal::Bytes(bytes), body })
            }
        },
    }
}

/// Runs a worker's whole life over a queue of requests: they are consumed in
/// order, each produces its effect from its own events alone, and the first
/// fatal event stops the worker, leaving later requests unserved. This is the
/// first-in-first-out law: effect `i` is determined by request `i`, so no
/// request is observably reordered, and a failed or abandoned body stream of
/// one request (an in-band event, not a fatal one) cannot keep the next from
/// completing.
pub fn run_requests(reqs: &Vec<Request>, events: &Vec<WorkerEvents>) -> (r: (
    Vec<RequestEffect>,
    Option<Error>,
))
    requires
        reqs@.len() == events@.len(),
    ensures
        r.0@.len() <= reqs@.len(),
        forall|i: int|
            0 <= i < r.0@.len() ==> #[trigger] effect_matches(reqs@[i], events@[i], r.0@[i]),
        forall|i: int|
            0 <= i < r.0@.len() ==> #[trigger] spec_worker_death(reqs@[i], events@[i]) is None,
        match r.1 {
            None => r.0@.len() == reqs@.len(),
            Some(err) => r.0@.len() < reqs@.len() && spec_worker_death(
                reqs@[r.0@.len() as int],
                events@[r.0@.len() as int],
            ) == Some(err),
        },
{
    let mut effects: Vec<RequestEffect> = Vec::new();
    let mut i: usize = 0;
    while i < reqs.len()
        invariant
            reqs@.len() == events@.len(),
            0 <= i <= reqs@.len(),
            effects@.len() == i,
            forall|t: int|
                0 <= t < i ==> #[trigger] effect_matches(reqs@[t], events@[t], effects@[t]),
            forall|t: int| 0 <= t < i ==> #[trigger] spec_worker_death(reqs@[t], events@[t]) is None,
        decreases reqs.len() - i,
    {
        match process_request(&reqs[i], &events[i]) {
            Ok(e) => {
                effects.push(e);
                i = i + 1;
            },
            Err(err) => {
                return (effects, Some(err));
            },
        }
    }
    (effects, None)
}

/// A remote ready to enqueue requests: the caller-side half of the pair,
/// holding the options snapshot cloned into every request it assembles.
pub struct Remote {
    pub config: HttpOptions,
}

impl Default for Remote {
    /// A fresh remote with default options; its worker, once the host spawns
    /// it, builds a client with `CONNECT_TIMEOUT_SECS` and title-case headers.
    fn default() -> (r: Self)
        ensures
            !r.config.has_configure_request,
    {
        Remote { config: HttpOptions { has_configure_request: false } }
    }
}

/// Whether every given header line carries the colon that `get` and `post`
/// split it at.
pub open spec fn all_lines_splittable(lines: Seq<Vec<u8>>) -> bool {
    forall|i: int|
        0 <= i < lines.len() ==> exists|j: int|
            0 <= j < (#[trigger] lines[i])@.len() && lines[i]@[j] == COLON
}

/// What the assembled header pairs of `get` and `post` are: each line split
/// at its first colon, the value trimmed.
pub open spec fn headers_match(lines: Seq<Vec<u8>>, pairs: Seq<(Vec<u8>, Vec<u8>)>) -> bool {
    &&& pairs.len() == lines.len()
    &&& forall|i: int|
        0 <= i < lines.len() ==> (#[trigger] pairs[i]).0@ == lines[i]@.take(first_colon(lines[i]@))
            && pairs[i].1@ == trimmed(lines[i]@.skip(first_colon(lines[i]@) + 1))
}

impl Remote {
    /// Replaces the stored options snapshot when the caller's configuration
    /// is HTTP options; anything else is ignored.
    pub fn configure(&mut self, config: Option<&HttpOptions>)
        ensures
            final(self).config == (match config {
                Some(c) => *c,
                None => old(self).config,
            }),
    {
        if let Some(c) = config {
            self.config = *c;
        }
    }

    /// Assembles the request `get` and `post` share: the header lines split
    /// into pairs and the current options snapshot taken along.
    fn make_request(
        &self,
        url: &Vec<u8>,
        headers: &Vec<Vec<u8>>,
        upload_body_kind: Option<PostBodyDataKind>,
    ) -> (r: Request)
        requires
            all_lines_splittable(headers@),
        ensures
            r.url@ == url@,
            headers_match(headers@, r.headers@),
            r.upload_body_kind == upload_body_kind,
            r.config == self.config,
    {
        let mut pairs: Vec<(Vec<u8>, Vec<u8>)> = Vec::new();
        let mut i: usize = 0;
        while i < headers.len()
            invariant
                0 <= i <= headers@.len(),
                all_lines_splittable(headers@),
                pairs@.len() == i,
                forall|t: int|
                    0 <= t < i ==> (#[trigger] pairs@[t]).0@ == headers@[t]@.take(
                        first_colon(headers@[t]@),
                    ) && pairs@[t].1@ == trimmed(headers@[t]@.skip(first_colon(headers@[t]@) + 1)),
            decreases headers.len() - i,
        {
            let (name, value) = split_header_line(&headers[i]);
            pairs.push((name, value));
            i = i + 1;
        }
        let mut u: Vec<u8> = Vec::new();
        let mut t: usize = 0;
        while t < url.len()
            invariant
                0 <= t <= url@.len(),
                u@ == url@.take(t as int),
            decreases url.len() - t,
        {
            u.push(url[t]);
            t = t + 1;
        }
        proof {
            assert(url@.take(url@.len() as int) =~= url@);
        }
        Request { url: u, headers: pairs, upload_body_kind, config: self.config }
    }

    /// Enqueues a GET: no upload body, so the worker chooses the GET verb.
    pub fn get(&self, url: &Vec<u8>, headers: &Vec<Vec<u8>>) -> (r: Request)
        requires
            all_lines_splittable(headers@),
        ensures
            r.url@ == url@,
            headers_match(headers@, r.headers@),
            r.upload_body_kind is None,
            r.config == self.config,
    {
        self.make_request(url, headers, None)
    }

    /// Enqueues a POST with an upload body of the given kind.
    pub fn post(&self, url: &Vec<u8>, headers: &Vec<Vec<u8>>, kind: PostBodyDataKind) -> (r:
        Request)
        requires
            all_lines_splittable(headers@),
        ensures
            r.url@ == url@,
            headers_match(headers@, r.headers@),
            r.upload_body_kind == Some(kind),
            r.config == self.config,
    {
        self.make_request(url, headers, Some(kind))
    }
}

} // verus!
