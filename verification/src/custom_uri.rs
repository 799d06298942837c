//! The media gateway: serves thumbnails and original files by internal
//! identifiers over a small HTTP model, with byte-range support and CORS.
//!
//! Requests and responses are values: a request carries the method, the
//! URI path and the `Range` header; a response carries a status, a list
//! of typed headers, and the body bytes. The shell that speaks real HTTP
//! converts between these values and the wire.

use vstd::prelude::*;
use vstd::string::*;

use crate::cache::MetadataCache;
use crate::catalog::{find_fp_index, Catalog};
use crate::file_identifier::build_abs_file_path;
use crate::strutil::{parse_i32, str_eq};
use crate::vfs::FileStore;

verus! {

/// The methods the gateway accepts.
#[derive(Clone, Copy, PartialEq, Eq, Structural, Debug)]
pub enum Method {
    Get,
    Head,
    Post,
    Options,
}

/// A response header. Fixed-value headers carry their value in their
/// meaning: `AccessControlAllowOrigin` is `*`, `AccessControlAllowMethods`
/// is `GET, HEAD, POST, OPTIONS`, `AccessControlAllowHeaders` is `*`,
/// `AccessControlMaxAge` is `86400`, `AcceptRanges` is `bytes`, and
/// `Connection` is `Keep-Alive`. `ContentRange` renders as
/// `bytes {start}-{last}/{size}`.
#[derive(Clone, PartialEq, Eq, Debug)]
pub enum Header {
    AccessControlAllowOrigin,
    AccessControlAllowMethods,
    AccessControlAllowHeaders,
    AccessControlMaxAge,
    ContentType(String),
    ContentLength(u64),
    AcceptRanges,
    Connection,
    ContentRange { start: u64, last: u64, size: u64 },
}

/// A gateway response.
#[derive(Clone, Debug)]
pub struct HttpResponse {
    pub status: u16,
    pub headers: Vec<Header>,
    pub body: Vec<u8>,
}

/// A gateway request.
#[derive(Clone, Debug)]
pub struct GatewayRequest {
    pub method: Method,
    pub uri_path: String,
    pub range_header: Option<String>,
}

/// The errors the gateway translates into HTTP statuses.
#[derive(Clone, PartialEq, Eq, Debug)]
pub enum HandleCustomUriError {
    /// Response construction failed.
    Http,
    /// An underlying filesystem failure not classified as not-found.
    Io,
    /// A catalog store failure.
    Query,
    BadRequest(String),
    RangeNotSatisfiable(String),
    NotFound(String),
}

/// The UTF-8 bytes of a character sequence.
pub open spec fn text_bytes(s: Seq<char>) -> Seq<u8> {
    vstd::utf8::encode_utf8(s)
}

/// Whether `s` parses as a uuid, and the sixteen bytes it denotes as one
/// integer; a function of the string alone.
pub uninterp spec fn uuid_of(s: Seq<char>) -> Option<u128>;

/// Relies on uuid::Uuid::parse_str and uuid::Uuid::as_u128: parsing a
/// uuid string succeeds or fails, and yields its bytes, as a function of
/// the string alone.
#[verifier::external_body]
pub(crate) fn parse_uuid(s: &str) -> (r: Option<u128>)
    ensures
        r == uuid_of(s@),
{
    match uuid::Uuid::parse_str(s) {
        Ok(u) => Some(u.as_u128()),
        Err(_) => None,
    }
}

/// What the `Range` header denotes against a resource of `size` bytes: a
/// list of (start, length) pairs, or nothing when the header is invalid; a
/// function of the header string and the size alone.
pub uninterp spec fn http_ranges(header: Seq<char>, size: u64) -> Option<Seq<(u64, u64)>>;

/// Relies on http_range::HttpRange::parse: the parsed ranges are a
/// function of the header string and the size alone, and the parser
/// clips every returned range to end within the resource. Against a
/// non-empty resource every returned range starts below the size and is
/// at least one byte; against an empty resource the only possible range
/// is the degenerate (0, 0), which a suffix range produces because the
/// parser clips the length after its zero-length check.
#[verifier::external_body]
pub(crate) fn parse_http_range(header: &str, size: u64) -> (r: Option<Vec<(u64, u64)>>)
    ensures
        (r is Some) == (http_ranges(header@, size) is Some),
        r matches Some(v) ==> {
            &&& v@ == http_ranges(header@, size)->0
            &&& forall|i: int| 0 <= i < v@.len() ==> (#[trigger] v@[i]).0 + v@[i].1 <= size
            &&& size > 0 ==> forall|i: int|
                0 <= i < v@.len() ==> (#[trigger] v@[i]).0 < size && v@[i].1 >= 1
            &&& size == 0 ==> forall|i: int|
                0 <= i < v@.len() ==> (#[trigger] v@[i]).0 == 0 && v@[i].1 == 0
        },
{
    match http_range::HttpRange::parse(header, size) {
        Ok(ranges) => Some(ranges.into_iter().map(|hr| (hr.start, hr.length)).collect()),
        Err(_) => None,
    }
}

/// Splitting a character sequence on `/`: the empty sequence is one empty
/// segment, and each further character either closes a segment or extends
/// the last one.
pub open spec fn split_slash_spec(s: Seq<char>) -> Seq<Seq<char>>
    decreases s.len(),
{
    if s.len() == 0 {
        seq![Seq::<char>::empty()]
    } else if s.last() == '/' {
        split_slash_spec(s.drop_last()).push(Seq::empty())
    } else {
        let pre = split_slash_spec(s.drop_last());
        pre.update(pre.len() - 1, pre.last().push(s.last()))
    }
}

pub proof fn lemma_split_slash_len(s: Seq<char>)
    ensures
        split_slash_spec(s).len() >= 1,
    decreases s.len(),
{
    if s.len() > 0 {
        lemma_split_slash_len(s.drop_last());
    }
}

/// Splits a string on `/`.
pub fn split_slash(s: &str) -> (r: Vec<String>)
    ensures
        r.deep_view() == split_slash_spec(s@),
{
    let n = s.unicode_len();
    let mut done: Vec<String> = Vec::new();
    let mut seg_start: usize = 0;
    let mut i: usize = 0;
    proof {
        assert(s@.take(0) =~= Seq::<char>::empty());
    }
    while i < n
        invariant
            0 <= seg_start <= i <= n,
            n == s@.len(),
            split_slash_spec(s@.take(i as int)) == done.deep_view().push(
                s@.subrange(seg_start as int, i as int),
            ),
            done.deep_view().len() == done@.len(),
        decreases n - i,
    {
        let ghost tk = s@.take(i as int);
        let ghost tk1 = s@.take(i as int + 1);
        proof {
            assert(tk1.drop_last() =~= tk);
            assert(tk1.last() == s@[i as int]);
        }
        let c = s.get_char(i);
        if c == '/' {
            let seg = s.substring_char(seg_start, i);
            let ghost old_done = done.deep_view();
            done.push(String::from_str(seg));
            proof {
                assert(done.deep_view() =~= old_done.push(s@.subrange(seg_start as int, i as int)))
                    by {
                    assert(forall|k: int|
                        0 <= k < old_done.len() ==> done.deep_view()[k] == old_done[k]);
                }
                assert(s@.subrange(i as int + 1, i as int + 1) =~= Seq::<char>::empty());
                assert(split_slash_spec(tk1) =~= done.deep_view().push(
                    s@.subrange(i as int + 1, i as int + 1),
                ));
            }
            seg_start = i + 1;
        } else {
            proof {
                let pre = split_slash_spec(tk);
                lemma_split_slash_len(tk);
                assert(pre.last() == s@.subrange(seg_start as int, i as int));
                assert(pre.last().push(s@[i as int]) =~= s@.subrange(seg_start as int, i as int + 1));
                assert(split_slash_spec(tk1) =~= done.deep_view().push(
                    s@.subrange(seg_start as int, i as int + 1),
                )) by {
                    assert(pre.update(pre.len() - 1, pre.last().push(s@[i as int])) =~= done
                        .deep_view().push(s@.subrange(seg_start as int, i as int + 1)));
                }
            }
        }
        i += 1;
    }
    let last = s.substring_char(seg_start, n);
    done.push(String::from_str(last));
    proof {
        assert(s@.take(n as int) =~= s@);
        assert(done.deep_view() =~= split_slash_spec(s@));
    }
    done
}

/// The body bytes served for a read: from `start` (clipped to the file
/// size), at most `length` bytes up to the end of the file; a read with
/// no start is the whole file.
pub open spec fn read_spec(contents: Seq<u8>, length: u64, start: Option<u64>) -> Seq<u8> {
    match start {
        Option::Some(st) => {
            let s = if st as int <= contents.len() {
                st as int
            } else {
                contents.len() as int
            };
            let l = if length as int <= contents.len() - s {
                length as int
            } else {
                contents.len() - s
            };
            contents.subrange(s, s + l)
        },
        Option::None => contents,
    }
}

/// Reads from the file's bytes: the whole file, or `length` bytes from
/// `start`, clipped at the end of the file.
pub fn read_file(contents: &Vec<u8>, length: u64, start: Option<u64>) -> (r: Vec<u8>)
    ensures
        r@ == read_spec(contents@, length, start),
{
    let n = contents.len();
    let s: usize = match start {
        Some(st) => {
            if st <= n as u64 {
                st as usize
            } else {
                n
            }
        },
        None => 0,
    };
    let l: usize = match start {
        Some(_) => {
            if length <= (n - s) as u64 {
                length as usize
            } else {
                n - s
            }
        },
        None => n,
    };
    let mut out: Vec<u8> = Vec::new();
    let mut i: usize = 0;
    while i < l
        invariant
            0 <= i <= l,
            s + l <= n,
            n == contents@.len(),
            out@ =~= contents@.subrange(s as int, s as int + i as int),
        decreases l - i,
    {
        out.push(contents[s + i]);
        proof {
            assert(out@ =~= contents@.subrange(s as int, s as int + i as int + 1));
        }
        i += 1;
    }
    proof {
        match start {
            Option::Some(st) => {
                assert(out@ =~= read_spec(contents@, length, start));
            },
            Option::None => {
                assert(out@ =~= contents@);
            },
        }
    }
    out
}

/// The MIME type of a lowercase extension, by the gateway's allow-list.
pub open spec fn mime_of(ext: Seq<char>) -> Option<Seq<char>> {
    if ext == "aac"@ {
        Some("audio/aac"@)
    } else if ext == "mid"@ || ext == "midi"@ {
        Some("audio/midi, audio/x-midi"@)
    } else if ext == "mp3"@ {
        Some("audio/mpeg"@)
    } else if ext == "m4a"@ {
        Some("audio/mp4"@)
    } else if ext == "oga"@ {
        Some("audio/ogg"@)
    } else if ext == "opus"@ {
        Some("audio/opus"@)
    } else if ext == "wav"@ {
        Some("audio/wav"@)
    } else if ext == "weba"@ {
        Some("audio/webm"@)
    } else if ext == "avi"@ {
        Some("video/x-msvideo"@)
    } else if ext == "mp4"@ || ext == "m4v"@ {
        Some("video/mp4"@)
    } else if ext == "mpeg"@ {
        Some("video/mpeg"@)
    } else if ext == "ogv"@ {
        Some("video/ogg"@)
    } else if ext == "ts"@ {
        Some("video/mp2t"@)
    } else if ext == "webm"@ {
        Some("video/webm"@)
    } else if ext == "3gp"@ {
        Some("video/3gpp"@)
    } else if ext == "3g2"@ {
        Some("video/3gpp2"@)
    } else if ext == "mov"@ {
        Some("video/quicktime"@)
    } else if ext == "avif"@ {
        Some("image/avif"@)
    } else if ext == "bmp"@ {
        Some("image/bmp"@)
    } else if ext == "gif"@ {
        Some("image/gif"@)
    } else if ext == "ico"@ {
        Some("image/vnd.microsoft.icon"@)
    } else if ext == "jpeg"@ || ext == "jpg"@ {
        Some("image/jpeg"@)
    } else if ext == "png"@ {
        Some("image/png"@)
    } else if ext == "svg"@ {
        Some("image/svg+xml"@)
    } else if ext == "tif"@ || ext == "tiff"@ {
        Some("image/tiff"@)
    } else if ext == "webp"@ {
        Some("image/webp"@)
    } else if ext == "pdf"@ {
        Some("application/pdf"@)
    } else {
        Option::None
    }
}

/// Looks a lowercase extension up in the MIME allow-list.
pub fn mime_from_extension(ext: &str) -> (r: Option<&'static str>)
    ensures
        (r is Some) == (mime_of(ext@) is Some),
        r matches Some(m) ==> Some(m@) == mime_of(ext@),
{
    if str_eq(ext, "aac") {
        Some("audio/aac")
    } else if str_eq(ext, "mid") || str_eq(ext, "midi") {
        Some("audio/midi, audio/x-midi")
    } else if str_eq(ext, "mp3") {
        Some("audio/mpeg")
    } else if str_eq(ext, "m4a") {
        Some("audio/mp4")
    } else if str_eq(ext, "oga") {
        Some("audio/ogg")
    } else if str_eq(ext, "opus") {
        Some("audio/opus")
    } else if str_eq(ext, "wav") {
        Some("audio/wav")
    } else if str_eq(ext, "weba") {
        Some("audio/webm")
    } else if str_eq(ext, "avi") {
        Some("video/x-msvideo")
    } else if str_eq(ext, "mp4") || str_eq(ext, "m4v") {
        Some("video/mp4")
    } else if str_eq(ext, "mpeg") {
        Some("video/mpeg")
    } else if str_eq(ext, "ogv") {
        Some("video/ogg")
    } else if str_eq(ext, "ts") {
        Some("video/mp2t")
    } else if str_eq(ext, "webm") {
        Some("video/webm")
    } else if str_eq(ext, "3gp") {
        Some("video/3gpp")
    } else if str_eq(ext, "3g2") {
        Some("video/3gpp2")
    } else if str_eq(ext, "mov") {
        Some("video/quicktime")
    } else if str_eq(ext, "avif") {
        Some("image/avif")
    } else if str_eq(ext, "bmp") {
        Some("image/bmp")
    } else if str_eq(ext, "gif") {
        Some("image/gif")
    } else if str_eq(ext, "ico") {
        Some("image/vnd.microsoft.icon")
    } else if str_eq(ext, "jpeg") || str_eq(ext, "jpg") {
        Some("image/jpeg")
    } else if str_eq(ext, "png") {
        Some("image/png")
    } else if str_eq(ext, "svg") {
        Some("image/svg+xml")
    } else if str_eq(ext, "tif") || str_eq(ext, "tiff") {
        Some("image/tiff")
    } else if str_eq(ext, "webp") {
        Some("image/webp")
    } else if str_eq(ext, "pdf") {
        Some("application/pdf")
    } else {
        None
    }
}

/// The CORS preflight response: 200 with the allow headers and an empty
/// body on `OPTIONS`; other methods get no preflight and instead carry
/// `Access-Control-Allow-Origin` on their own response.
pub fn cors(method: Method) -> (r: Option<HttpResponse>)
    ensures
        (r is Some) == (method == Method::Options),
        r matches Some(resp) ==> {
            &&& resp.status == 200
            &&& resp.headers@ == seq![
                Header::AccessControlAllowOrigin,
                Header::AccessControlAllowMethods,
                Header::AccessControlAllowHeaders,
                Header::AccessControlMaxAge,
            ]
            &&& resp.body@.len() == 0
        },
{
    if method == Method::Options {
        let mut headers: Vec<Header> = Vec::new();
        headers.push(Header::AccessControlAllowOrigin);
        headers.push(Header::AccessControlAllowMethods);
        headers.push(Header::AccessControlAllowHeaders);
        headers.push(Header::AccessControlMaxAge);
        proof {
            assert(headers@ =~= seq![
                Header::AccessControlAllowOrigin,
                Header::AccessControlAllowMethods,
                Header::AccessControlAllowHeaders,
                Header::AccessControlMaxAge,
            ]);
        }
        Some(HttpResponse { status: 200, headers, body: Vec::new() })
    } else {
        None
    }
}

/// Translates an error into its HTTP response: internal failures are 500
/// with the fixed body, bad requests are 400, unsatisfiable ranges 416,
/// and missing resources 404 with `Resource '<name>' not found`.
pub fn error_to_response(e: &HandleCustomUriError) -> (r: HttpResponse)
    ensures
        r.headers@.len() == 1,
        r.headers@[0] matches Header::ContentType(t) && t@ == "text/plain"@,
        match e {
            HandleCustomUriError::Http => r.status == 500 && r.body@ == text_bytes(
                "Internal Server Error"@,
            ),
            HandleCustomUriError::Io => r.status == 500 && r.body@ == text_bytes(
                "Internal Server Error"@,
            ),
            HandleCustomUriError::Query => r.status == 500 && r.body@ == text_bytes(
                "Internal Server Error"@,
            ),
            HandleCustomUriError::BadRequest(msg) => r.status == 400 && r.body@ == text_bytes(
                msg@,
            ),
            HandleCustomUriError::RangeNotSatisfiable(msg) => r.status == 416 && r.body@
                == text_bytes(msg@),
            HandleCustomUriError::NotFound(resource) => r.status == 404 && r.body@ == text_bytes(
                "Resource '"@ + resource@ + "' not found"@,
            ),
        },
{
    let mut headers: Vec<Header> = Vec::new();
    headers.push(Header::ContentType(String::from_str("text/plain")));
    match e {
        HandleCustomUriError::Http => HttpResponse {
            status: 500,
            headers,
            body: "Internal Server Error".as_bytes_vec(),
        },
        HandleCustomUriError::Io => HttpResponse {
            status: 500,
            headers,
            body: "Internal Server Error".as_bytes_vec(),
        },
        HandleCustomUriError::Query => HttpResponse {
            status: 500,
            headers,
            body: "Internal Server Error".as_bytes_vec(),
        },
        HandleCustomUriError::BadRequest(msg) => HttpResponse {
            status: 400,
            headers,
            body: msg.as_str().as_bytes_vec(),
        },
        HandleCustomUriError::RangeNotSatisfiable(msg) => HttpResponse {
            status: 416,
            headers,
            body: msg.as_str().as_bytes_vec(),
        },
        HandleCustomUriError::NotFound(resource) => {
            let mut body_text = String::from_str("Resource '");
            body_text.append(resource.as_str());
            body_text.append("' not found");
            HttpResponse { status: 404, headers, body: body_text.as_str().as_bytes_vec() }
        },
    }
}


/// One library the gateway can serve from: its public id and its catalog.
#[derive(Clone, Debug)]
pub struct Library {
    pub id: u128,
    pub catalog: Catalog,
}

impl Library {
    /// Whether the thumbnail for `cas_id` is on disk under the node's
    /// data directory.
    pub fn thumbnail_exists(&self, files: &FileStore, data_directory: &str, cas_id: &str) -> (r:
        bool)
        requires
            files.wf(),
        ensures
            r == files.has_file(thumbnail_path_spec(data_directory@, cas_id@)),
    {
        let path = thumbnail_path(data_directory, cas_id);
        files.lookup(path.as_str()).is_some()
    }
}

/// The node the gateway runs on: its data directory (for thumbnails), the
/// library registry, and the metadata cache.
#[derive(Clone, Debug)]
pub struct Node {
    pub data_directory: String,
    pub libraries: Vec<Library>,
    pub cache: MetadataCache,
}

/// The byte length a range request is served: the requested length, or,
/// when chunk capping applies and the request exceeds a third of the
/// file, at most 400 KiB from the start (clipped at the file end).
pub open spec fn capped_len(size: u64, start: u64, length: u64, cap: bool) -> int {
    if cap && length > size / 3 {
        if size - start <= 409600 {
            size - start
        } else {
            409600
        }
    } else {
        length as int
    }
}

/// What a successful file response looks like, for the file's bytes, the
/// method, the MIME type, and the single requested range if any.
pub open spec fn file_response_ok(
    resp: HttpResponse,
    contents: Seq<u8>,
    method: Method,
    mime: Seq<char>,
    range: Option<(u64, u64)>,
    cap: bool,
) -> bool {
    let size = contents.len() as u64;
    match range {
        Option::None => {
            &&& resp.status == 200
            &&& resp.headers@.len() == 4
            &&& resp.headers@[0] == Header::AccessControlAllowOrigin
            &&& resp.headers@[1] == Header::AcceptRanges
            &&& (resp.headers@[2] matches Header::ContentType(t) && t@ == mime)
            &&& resp.headers@[3] == (Header::ContentLength(size))
            &&& resp.body@ == (if method == Method::Head {
                Seq::<u8>::empty()
            } else {
                contents
            })
        },
        Option::Some(r) => {
            let cl = capped_len(size, r.0, r.1, cap);
            &&& resp.status == 206
            &&& resp.headers@.len() == 7
            &&& resp.headers@[0] == Header::AccessControlAllowOrigin
            &&& resp.headers@[1] == Header::Connection
            &&& resp.headers@[2] == Header::AcceptRanges
            &&& resp.headers@[3] == (Header::ContentRange {
                start: r.0,
                last: (r.0 + cl - 1) as u64,
                size,
            })
            &&& resp.headers@[4] == Header::AcceptRanges
            &&& (resp.headers@[5] matches Header::ContentType(t) && t@ == mime)
            &&& resp.headers@[6] == (Header::ContentLength(cl as u64))
            &&& resp.body@ == contents.subrange(r.0 as int, r.0 + cl)
        },
    }
}

/// Builds the success response for a file: a 200 with the whole body (or
/// none on `HEAD`), or a 206 with the requested range, capped when chunk
/// capping applies.
pub fn serve_file_response(
    contents: &Vec<u8>,
    method: Method,
    mime: &str,
    range: Option<(u64, u64)>,
    apply_chunk_cap: bool,
) -> (r: HttpResponse)
    requires
        range matches Some(rg) ==> rg.0 < contents@.len() && rg.1 >= 1 && rg.0 + rg.1
            <= contents@.len(),
    ensures
        file_response_ok(r, contents@, method, mime@, range, apply_chunk_cap),
{
    let size = contents.len() as u64;
    match range {
        Some((start, length)) => {
            let mut content_length: u64 = length;
            if apply_chunk_cap && length > size / 3 {
                let rest = size - start;
                content_length = if rest <= 409600 {
                    rest
                } else {
                    409600
                };
            }
            let last_byte = start + content_length - 1;
            let mut headers: Vec<Header> = Vec::new();
            headers.push(Header::AccessControlAllowOrigin);
            headers.push(Header::Connection);
            headers.push(Header::AcceptRanges);
            headers.push(Header::ContentRange { start, last: last_byte, size });
            headers.push(Header::AcceptRanges);
            headers.push(Header::ContentType(String::from_str(mime)));
            headers.push(Header::ContentLength(content_length));
            let body = read_file(contents, content_length, Some(start));
            proof {
                assert(content_length as int == capped_len(size, start, length, apply_chunk_cap));
                assert(body@ =~= contents@.subrange(
                    start as int,
                    start + capped_len(size, start, length, apply_chunk_cap),
                ));
            }
            HttpResponse { status: 206, headers, body }
        },
        None => {
            let mut headers: Vec<Header> = Vec::new();
            headers.push(Header::AccessControlAllowOrigin);
            headers.push(Header::AcceptRanges);
            headers.push(Header::ContentType(String::from_str(mime)));
            headers.push(Header::ContentLength(size));
            let body = if method == Method::Head {
                Vec::new()
            } else {
                read_file(contents, size, None)
            };
            HttpResponse { status: 200, headers, body }
        },
    }
}

/// What a successful thumbnail response looks like: a 200 carrying the
/// whole `.webp` (or no body on `HEAD`); thumbnails are never served in
/// ranges.
pub open spec fn thumbnail_response_ok(resp: HttpResponse, contents: Seq<u8>, method: Method) -> bool {
    &&& resp.status == 200
    &&& resp.headers@.len() == 3
    &&& resp.headers@[0] == Header::AccessControlAllowOrigin
    &&& (resp.headers@[1] matches Header::ContentType(t) && t@ == "image/webp"@)
    &&& resp.headers@[2] == (Header::ContentLength(contents.len() as u64))
    &&& resp.body@ == (if method == Method::Head {
        Seq::<u8>::empty()
    } else {
        contents
    })
}

/// Builds the success response for a thumbnail.
fn serve_thumbnail_response(contents: &Vec<u8>, method: Method) -> (r: HttpResponse)
    ensures
        thumbnail_response_ok(r, contents@, method),
{
    let mut headers: Vec<Header> = Vec::new();
    headers.push(Header::AccessControlAllowOrigin);
    headers.push(Header::ContentType(String::from_str("image/webp")));
    headers.push(Header::ContentLength(contents.len() as u64));
    let body = if method == Method::Head {
        Vec::new()
    } else {
        read_file(contents, contents.len() as u64, None)
    };
    HttpResponse { status: 200, headers, body }
}

/// The on-disk path of a thumbnail: `<data_directory>/thumbnails/<cas_id>.webp`.
pub open spec fn thumbnail_path_spec(data_directory: Seq<char>, cas_id: Seq<char>) -> Seq<char> {
    data_directory + "/thumbnails/"@ + cas_id + ".webp"@
}

/// Builds the on-disk path of a thumbnail.
pub fn thumbnail_path(data_directory: &str, cas_id: &str) -> (r: String)
    ensures
        r@ == thumbnail_path_spec(data_directory@, cas_id@),
{
    let mut s = String::from_str(data_directory);
    s.append("/thumbnails/");
    s.append(cas_id);
    s.append(".webp");
    proof {
        assert(s@ =~= thumbnail_path_spec(data_directory@, cas_id@));
    }
    s
}

/// What serving `/thumbnail/{cas_id}` yields: a CORS preflight reply on
/// `OPTIONS`, a bad request without the cas parameter, a 404 when the
/// `.webp` is not on disk, and otherwise the whole thumbnail.
pub open spec fn thumbnail_outcome(
    files: FileStore,
    data_directory: Seq<char>,
    segs: Seq<Seq<char>>,
    method: Method,
    r: Result<HttpResponse, HandleCustomUriError>,
) -> bool {
    if method == Method::Options {
        r is Ok && r->Ok_0.status == 200 && r->Ok_0.body@.len() == 0
    } else if segs.len() < 2 {
        r matches Err(HandleCustomUriError::BadRequest(m)) && m@
            == "Invalid number of parameters!"@
    } else {
        let file_path = thumbnail_path_spec(data_directory, segs[1]);
        if files.has_file(file_path) {
            r matches Ok(resp) && thumbnail_response_ok(resp, files.file_at(file_path), method)
        } else {
            r matches Err(HandleCustomUriError::NotFound(m)) && m@ == "file"@
        }
    }
}

/// Serves `/thumbnail/{cas_id}`: the stored `.webp` under the node's data
/// directory, whole (or headers only on `HEAD`); ranges are not supported
/// for thumbnails.
pub fn handle_thumbnail(
    files: &FileStore,
    data_directory: &str,
    path: &Vec<String>,
    method: Method,
) -> (r: Result<HttpResponse, HandleCustomUriError>)
    requires
        files.wf(),
    ensures
        thumbnail_outcome(*files, data_directory@, path.deep_view(), method, r),
{
    if let Some(resp) = cors(method) {
        return Ok(resp);
    }
    if path.len() < 2 {
        return Err(
            HandleCustomUriError::BadRequest(String::from_str("Invalid number of parameters!")),
        );
    }
    proof {
        assert(path.deep_view()[1] == path@[1]@);
    }
    let filename = thumbnail_path(data_directory, path[1].as_str());
    match files.lookup(filename.as_str()) {
        Some(contents) => Ok(serve_thumbnail_response(contents, method)),
        None => Err(HandleCustomUriError::NotFound(String::from_str("file"))),
    }
}


/// Some registered library has this id.
pub open spec fn has_library(libs: Seq<Library>, id: u128) -> bool {
    exists|i: int| 0 <= i < libs.len() && (#[trigger] libs[i]).id == id
}

/// The catalog of the library with this id.
pub open spec fn library_catalog(libs: Seq<Library>, id: u128) -> Catalog {
    libs[choose|i: int| 0 <= i < libs.len() && (#[trigger] libs[i]).id == id].catalog
}

/// Some file path of the catalog has this id.
pub open spec fn catalog_has_fp(cat: Catalog, fp_id: i32) -> bool {
    exists|k: int|
        0 <= k < cat.file_paths@.len() && (#[trigger] cat.file_paths@[k]).id == fp_id
}

/// The file path of the catalog with this id.
pub open spec fn catalog_fp(cat: Catalog, fp_id: i32) -> crate::catalog::FilePathRecord {
    cat.file_paths@[choose|k: int|
        0 <= k < cat.file_paths@.len() && (#[trigger] cat.file_paths@[k]).id == fp_id]
}

/// Some location of the catalog has this id.
pub open spec fn catalog_has_location(cat: Catalog, loc_id: i32) -> bool {
    exists|k: int|
        0 <= k < cat.locations@.len() && (#[trigger] cat.locations@[k]).id == loc_id
}

/// The location of the catalog with this id.
pub open spec fn catalog_location(cat: Catalog, loc_id: i32) -> crate::catalog::LocationRecord {
    cat.locations@[choose|k: int|
        0 <= k < cat.locations@.len() && (#[trigger] cat.locations@[k]).id == loc_id]
}

/// A well-formed node: unique library ids, well-formed catalogs with
/// unique location ids, and a well-formed cache.
pub open spec fn node_wf(node: Node) -> bool {
    &&& node.cache.wf()
    &&& forall|i: int, j: int|
        0 <= i < node.libraries@.len() && 0 <= j < node.libraries@.len() && i != j ==> (
        #[trigger] node.libraries@[i]).id != (#[trigger] node.libraries@[j]).id
    &&& forall|i: int| 0 <= i < node.libraries@.len() ==> (#[trigger] node.libraries@[i]).catalog.wf()
    &&& forall|i: int, a: int, b: int|
        0 <= i < node.libraries@.len() && 0 <= a < node.libraries@[i].catalog.locations@.len() && 0
            <= b < node.libraries@[i].catalog.locations@.len() && a != b ==> (
        #[trigger] node.libraries@[i].catalog.locations@[a]).id != (
        #[trigger] node.libraries@[i].catalog.locations@[b]).id
}

/// The single range a GET request asks to be served, given the parsed
/// header: one range with a positive length is served as asked; a
/// zero-length range (possible only against an empty file) and an empty
/// range list mean the whole file.
pub open spec fn requested_range(
    method: Method,
    range_header: Option<String>,
    size: u64,
) -> Option<(u64, u64)> {
    if method == Method::Get && range_header is Some {
        let parsed = http_ranges(range_header->0@, size);
        if parsed is Some && parsed->0.len() == 1 && parsed->0[0].1 > 0 {
            Some(parsed->0[0])
        } else {
            Option::None
        }
    } else {
        Option::None
    }
}

/// Every key of `cache1` other than `(library_id, entry_id)` is a key of
/// `cache0` with its old value: the cache gains at most that one key and
/// rewrites no other.
pub open spec fn cache_gains_at_most(
    cache0: MetadataCache,
    cache1: MetadataCache,
    library_id: u128,
    entry_id: i32,
) -> bool {
    forall|l: u128, e: i32|
        !(l == library_id && e == entry_id) && #[trigger] cache1.has_key(l, e)
            ==> cache0.has_key(l, e) && cache1.value_of(l, e) == cache0.value_of(l, e)
}

/// What serving `/file/{library_uuid}/{entry_id}` yields, and how it
/// changes the cache. The path and extension served come from the cache
/// when the key is present (a stale entry surfaces as a 404), and from
/// the catalog otherwise, in which case the resolution is cached. No
/// outcome touches any other cache key, and the early rejections leave
/// the cache untouched entirely.
pub open spec fn file_outcome(
    cache0: MetadataCache,
    cache1: MetadataCache,
    libs: Seq<Library>,
    files: FileStore,
    segs: Seq<Seq<char>>,
    method: Method,
    range_header: Option<String>,
    cap: bool,
    r: Result<HttpResponse, HandleCustomUriError>,
) -> bool {
    if method == Method::Options {
        (r is Ok && r->Ok_0.status == 200 && r->Ok_0.body@.len() == 0) && cache1 == cache0
    } else if segs.len() < 2 || uuid_of(segs[1]) is None {
        (r matches Err(HandleCustomUriError::BadRequest(m)) && m@
            == "Invalid number of parameters. Missing library_id!"@) && cache1 == cache0
    } else if segs.len() < 3 || crate::strutil::parse_i32_spec(segs[2]) is None {
        (r matches Err(HandleCustomUriError::BadRequest(m)) && m@
            == "Invalid number of parameters. Missing file_path_id!"@) && cache1 == cache0
    } else {
        let lib_id = uuid_of(segs[1])->0;
        let fp_id = crate::strutil::parse_i32_spec(segs[2])->0;
        let hit = cache0.has_key(lib_id, fp_id);
        if !hit && !has_library(libs, lib_id) {
            (r matches Err(HandleCustomUriError::NotFound(m)) && m@ == "library"@) && cache1
                == cache0
        } else if !hit && !catalog_has_fp(library_catalog(libs, lib_id), fp_id) {
            (r matches Err(HandleCustomUriError::NotFound(m)) && m@ == "object"@) && cache1
                == cache0
        } else if !hit && !catalog_has_location(
            library_catalog(libs, lib_id),
            catalog_fp(library_catalog(libs, lib_id), fp_id).location_id,
        ) {
            (r matches Err(HandleCustomUriError::Query)) && cache1 == cache0
        } else {
            let cat = library_catalog(libs, lib_id);
            let pe = if hit {
                cache0.value_of(lib_id, fp_id)
            } else {
                (
                    crate::file_identifier::abs_file_path(
                        catalog_location(cat, catalog_fp(cat, fp_id).location_id),
                        catalog_fp(cat, fp_id),
                    ),
                    catalog_fp(cat, fp_id).extension@,
                )
            };
            &&& cache1.has_key(lib_id, fp_id)
            &&& cache1.value_of(lib_id, fp_id) == pe
            &&& cache_gains_at_most(cache0, cache1, lib_id, fp_id)
            &&& if !files.has_file(pe.0) {
                r matches Err(HandleCustomUriError::NotFound(m)) && m@ == "file"@
            } else if mime_of(pe.1) is None {
                r matches Err(HandleCustomUriError::BadRequest(m)) && m@
                    == "This filetype is not supported because of the missing mime type!"@
            } else {
                let contents = files.file_at(pe.0);
                let size = contents.len() as u64;
                if method == Method::Get && range_header is Some && http_ranges(
                    range_header->0@,
                    size,
                ) is None {
                    r matches Err(HandleCustomUriError::RangeNotSatisfiable(m)) && m@
                        == "Error decoding range header!"@
                } else if method == Method::Get && range_header is Some && http_ranges(
                    range_header->0@,
                    size,
                )->0.len() > 1 {
                    r matches Err(HandleCustomUriError::RangeNotSatisfiable(m)) && m@
                        == "Multiple ranges are not supported!"@
                } else {
                    r matches Ok(resp) && file_response_ok(
                        resp,
                        contents,
                        method,
                        mime_of(pe.1)->0,
                        requested_range(method, range_header, size),
                        cap,
                    )
                }
            }
        }
    }
}

/// Serves `/file/{library_uuid}/{entry_id}`: resolves the entry to an
/// absolute path through the cache or the catalog, opens the file, and
/// serves it whole or as a single byte range.
#[verifier::rlimit(100)]
#[verifier::spinoff_prover]
pub fn handle_file(
    node: &mut Node,
    files: &FileStore,
    path: &Vec<String>,
    method: Method,
    range_header: &Option<String>,
    apply_chunk_cap: bool,
) -> (r: Result<HttpResponse, HandleCustomUriError>)
    requires
        node_wf(*old(node)),
        files.wf(),
    ensures
        node_wf(*final(node)),
        final(node).libraries == old(node).libraries,
        final(node).data_directory == old(node).data_directory,
        file_outcome(
            old(node).cache,
            final(node).cache,
            old(node).libraries@,
            *files,
            path.deep_view(),
            method,
            *range_header,
            apply_chunk_cap,
            r,
        ),
{
    let ghost segs = path.deep_view();
    if let Some(resp) = cors(method) {
        return Ok(resp);
    }
    let library_id: u128;
    if path.len() >= 2 {
        proof {
            assert(segs[1] == path@[1]@);
        }
        match parse_uuid(path[1].as_str()) {
            Some(u) => {
                library_id = u;
            },
            None => {
                return Err(
                    HandleCustomUriError::BadRequest(
                        String::from_str("Invalid number of parameters. Missing library_id!"),
                    ),
                );
            },
        }
    } else {
        return Err(
            HandleCustomUriError::BadRequest(
                String::from_str("Invalid number of parameters. Missing library_id!"),
            ),
        );
    }
    let file_path_id: i32;
    if path.len() >= 3 {
        proof {
            assert(segs[2] == path@[2]@);
        }
        match parse_i32(path[2].as_str()) {
            Some(v) => {
                file_path_id = v;
            },
            None => {
                return Err(
                    HandleCustomUriError::BadRequest(
                        String::from_str("Invalid number of parameters. Missing file_path_id!"),
                    ),
                );
            },
        }
    } else {
        return Err(
            HandleCustomUriError::BadRequest(
                String::from_str("Invalid number of parameters. Missing file_path_id!"),
            ),
        );
    }
    // consult the cache; on a miss, resolve through the catalog and cache
    // the resolution
    let resolved: (String, String);
    match node.cache.get(library_id, file_path_id) {
        Some(pe) => {
            resolved = pe;
        },
        None => {
            // find the library
            let mut li: usize = 0;
            let nl = node.libraries.len();
            let mut lib_idx: Option<usize> = None;
            while li < nl && lib_idx.is_none()
                invariant
                    0 <= li <= nl,
                    nl == node.libraries@.len(),
                    *node == *old(node),
                    match lib_idx {
                        Some(x) => 0 <= x < nl && node.libraries@[x as int].id == library_id,
                        None => forall|b: int|
                            0 <= b < li ==> (#[trigger] node.libraries@[b]).id != library_id,
                    },
                decreases nl - li,
            {
                if node.libraries[li].id == library_id {
                    lib_idx = Some(li);
                }
                li += 1;
            }
            let lx: usize;
            match lib_idx {
                Some(x) => {
                    lx = x;
                },
                None => {
                    return Err(HandleCustomUriError::NotFound(String::from_str("library")));
                },
            }
            proof {
                let c = choose|i: int|
                    0 <= i < node.libraries@.len() && (#[trigger] node.libraries@[i]).id
                        == library_id;
                assert(c == lx);
            }
            // find the entry and its location
            let kx: usize;
            match find_fp_index(&node.libraries[lx].catalog, file_path_id) {
                Some(k) => {
                    kx = k;
                },
                None => {
                    return Err(HandleCustomUriError::NotFound(String::from_str("object")));
                },
            }
            proof {
                let cat = node.libraries@[lx as int].catalog;
                let c = choose|k: int|
                    0 <= k < cat.file_paths@.len() && (#[trigger] cat.file_paths@[k]).id
                        == file_path_id;
                assert(cat.file_paths@[c].id == cat.file_paths@[kx as int].id);
                assert(c == kx) by {
                    if c < kx {
                        assert(cat.file_paths@[c].id < cat.file_paths@[kx as int].id);
                    }
                    if kx < c {
                        assert(cat.file_paths@[kx as int].id < cat.file_paths@[c].id);
                    }
                }
            }
            let loc_id = node.libraries[lx].catalog.file_paths[kx].location_id;
            let nloc = node.libraries[lx].catalog.locations.len();
            let mut lj: usize = 0;
            let mut loc_idx: Option<usize> = None;
            while lj < nloc && loc_idx.is_none()
                invariant
                    0 <= lj <= nloc,
                    0 <= lx < node.libraries@.len(),
                    nloc == node.libraries@[lx as int].catalog.locations@.len(),
                    *node == *old(node),
                    match loc_idx {
                        Some(x) => 0 <= x < nloc && node.libraries@[lx as int].catalog.locations@[
                            x as int
                        ].id == loc_id,
                        None => forall|b: int|
                            0 <= b < lj ==> (
                            #[trigger] node.libraries@[lx as int].catalog.locations@[b]).id
                                != loc_id,
                    },
                decreases nloc - lj,
            {
                if node.libraries[lx].catalog.locations[lj].id == loc_id {
                    loc_idx = Some(lj);
                }
                lj += 1;
            }
            let lo: usize;
            match loc_idx {
                Some(x) => {
                    lo = x;
                },
                None => {
                    return Err(HandleCustomUriError::Query);
                },
            }
            proof {
                let cat = node.libraries@[lx as int].catalog;
                let c = choose|k: int|
                    0 <= k < cat.locations@.len() && (#[trigger] cat.locations@[k]).id == loc_id;
                assert(c == lo);
            }
            let abs = build_abs_file_path(
                &node.libraries[lx].catalog.locations[lo],
                &node.libraries[lx].catalog.file_paths[kx],
            );
            let ext = node.libraries[lx].catalog.file_paths[kx].extension.clone();
            node.cache.insert(library_id, file_path_id, abs.clone(), ext.clone());
            resolved = (abs, ext);
        },
    }
    let file_contents = match files.lookup(resolved.0.as_str()) {
        Some(c) => c,
        None => {
            return Err(HandleCustomUriError::NotFound(String::from_str("file")));
        },
    };
    let mime = match mime_from_extension(resolved.1.as_str()) {
        Some(m) => m,
        None => {
            return Err(
                HandleCustomUriError::BadRequest(
                    String::from_str(
                        "This filetype is not supported because of the missing mime type!",
                    ),
                ),
            );
        },
    };
    let size = file_contents.len() as u64;
    let mut range: Option<(u64, u64)> = None;
    if method == Method::Get {
        match range_header {
            Some(h) => {
                match parse_http_range(h.as_str(), size) {
                    Some(ranges) => {
                        if ranges.len() > 1 {
                            return Err(
                                HandleCustomUriError::RangeNotSatisfiable(
                                    String::from_str("Multiple ranges are not supported!"),
                                ),
                            );
                        }
                        if ranges.len() == 1 {
                            let (range_start, range_length) = ranges[0];
                            // a zero-length range arises only against an
                            // empty file; it is served as the whole
                            // (empty) file rather than as a partial
                            // response
                            if range_length > 0 {
                                range = Some((range_start, range_length));
                            }
                        }
                    },
                    None => {
                        return Err(
                            HandleCustomUriError::RangeNotSatisfiable(
                                String::from_str("Error decoding range header!"),
                            ),
                        );
                    },
                }
            },
            None => {},
        }
    }
    Ok(serve_file_response(file_contents, method, mime, range, apply_chunk_cap))
}

/// The path segments of a request: the URI path, stripped of one leading
/// `/`, split on `/`.
pub open spec fn request_segments(uri: Seq<char>) -> Seq<Seq<char>> {
    if uri.len() > 0 && uri[0] == '/' {
        split_slash_spec(uri.skip(1))
    } else {
        split_slash_spec(uri)
    }
}

/// Dispatches a request to the thumbnail or file handler by its first
/// path segment; anything else is a bad request.
pub fn handler(
    node: &mut Node,
    files: &FileStore,
    req: &GatewayRequest,
    apply_chunk_cap: bool,
) -> (r: Result<HttpResponse, HandleCustomUriError>)
    requires
        node_wf(*old(node)),
        files.wf(),
    ensures
        node_wf(*final(node)),
        final(node).libraries == old(node).libraries,
        final(node).data_directory == old(node).data_directory,
        ({
            let segs = request_segments(req.uri_path@);
            if segs[0] == "thumbnail"@ {
                thumbnail_outcome(*files, old(node).data_directory@, segs, req.method, r)
                    && final(node).cache == old(node).cache
            } else if segs[0] == "file"@ {
                file_outcome(
                    old(node).cache,
                    final(node).cache,
                    old(node).libraries@,
                    *files,
                    segs,
                    req.method,
                    req.range_header,
                    apply_chunk_cap,
                    r,
                )
            } else {
                (r matches Err(HandleCustomUriError::BadRequest(m)) && m@
                    == "Invalid operation!"@) && final(node).cache == old(node).cache
            }
        }),
{
    let n = req.uri_path.as_str().unicode_len();
    let stripped: &str = if n > 0 && req.uri_path.as_str().get_char(0) == '/' {
        req.uri_path.as_str().substring_char(1, n)
    } else {
        req.uri_path.as_str()
    };
    proof {
        if n > 0 && req.uri_path@[0] == '/' {
            assert(stripped@ =~= req.uri_path@.skip(1));
        }
    }
    let segments = split_slash(stripped);
    proof {
        lemma_split_slash_len(stripped@);
        assert(segments.deep_view().len() == segments@.len());
        assert(segments.deep_view()[0] == segments@[0]@);
    }
    if str_eq(segments[0].as_str(), "thumbnail") {
        handle_thumbnail(files, node.data_directory.clone().as_str(), &segments, req.method)
    } else if str_eq(segments[0].as_str(), "file") {
        handle_file(node, files, &segments, req.method, &req.range_header, apply_chunk_cap)
    } else {
        Err(HandleCustomUriError::BadRequest(String::from_str("Invalid operation!")))
    }
}

/// Serves one request end to end: a handler failure is translated into
/// its HTTP error response.
pub fn handle_request(
    node: &mut Node,
    files: &FileStore,
    req: &GatewayRequest,
    apply_chunk_cap: bool,
) -> (r: HttpResponse)
    requires
        node_wf(*old(node)),
        files.wf(),
    ensures
        node_wf(*final(node)),
        ({
            let segs = request_segments(req.uri_path@);
            exists|h: Result<HttpResponse, HandleCustomUriError>|
                {
                    &&& (if segs[0] == "thumbnail"@ {
                        thumbnail_outcome(
                            *files,
                            old(node).data_directory@,
                            segs,
                            req.method,
                            h,
                        )
                    } else if segs[0] == "file"@ {
                        file_outcome(
                            old(node).cache,
                            final(node).cache,
                            old(node).libraries@,
                            *files,
                            segs,
                            req.method,
                            req.range_header,
                            apply_chunk_cap,
                            h,
                        )
                    } else {
                        h matches Err(HandleCustomUriError::BadRequest(m)) && m@
                            == "Invalid operation!"@
                    })
                    &&& (h matches Ok(resp) ==> r == resp)
                    &&& (h matches Err(e) ==> error_outcome(e, r))
                }
        }),
{
    let ghost segs = request_segments(req.uri_path@);
    match handler(node, files, req, apply_chunk_cap) {
        Ok(resp) => {
            proof {
                // mention both outcome instances, so the existential in
                // the contract finds its witness
                let h: Result<HttpResponse, HandleCustomUriError> = Ok(resp);
                let t1 = thumbnail_outcome(
                    *files,
                    old(node).data_directory@,
                    segs,
                    req.method,
                    h,
                );
                let t2 = file_outcome(
                    old(node).cache,
                    node.cache,
                    old(node).libraries@,
                    *files,
                    segs,
                    req.method,
                    req.range_header,
                    apply_chunk_cap,
                    h,
                );
                assert(t1 || !t1);
                assert(t2 || !t2);
            }
            resp
        },
        Err(e) => {
            let resp = error_to_response(&e);
            proof {
                assert(error_outcome(e, resp));
                // mention both outcome instances, so the existential in
                // the contract finds its witness
                let h: Result<HttpResponse, HandleCustomUriError> = Err(e);
                let t1 = thumbnail_outcome(
                    *files,
                    old(node).data_directory@,
                    segs,
                    req.method,
                    h,
                );
                let t2 = file_outcome(
                    old(node).cache,
                    node.cache,
                    old(node).libraries@,
                    *files,
                    segs,
                    req.method,
                    req.range_header,
                    apply_chunk_cap,
                    h,
                );
                assert(t1 || !t1);
                assert(t2 || !t2);
            }
            resp
        },
    }
}

/// What the error translation yields, by error kind.
pub open spec fn error_outcome(e: HandleCustomUriError, r: HttpResponse) -> bool {
    &&& r.headers@.len() == 1
    &&& (r.headers@[0] matches Header::ContentType(t) && t@ == "text/plain"@)
    &&& match e {
        HandleCustomUriError::Http => r.status == 500 && r.body@ == text_bytes(
            "Internal Server Error"@,
        ),
        HandleCustomUriError::Io => r.status == 500 && r.body@ == text_bytes(
            "Internal Server Error"@,
        ),
        HandleCustomUriError::Query => r.status == 500 && r.body@ == text_bytes(
            "Internal Server Error"@,
        ),
        HandleCustomUriError::BadRequest(msg) => r.status == 400 && r.body@ == text_bytes(msg@),
        HandleCustomUriError::RangeNotSatisfiable(msg) => r.status == 416 && r.body@ == text_bytes(
            msg@,
        ),
        HandleCustomUriError::NotFound(resource) => r.status == 404 && r.body@ == text_bytes(
            "Resource '"@ + resource@ + "' not found"@,
        ),
    }
}

/// The body a single-range request is served.
pub open spec fn range_body(contents: Seq<u8>, rg: (u64, u64), cap: bool) -> Seq<u8> {
    contents.subrange(
        rg.0 as int,
        rg.0 + capped_len(contents.len() as u64, rg.0, rg.1, cap),
    )
}

/// The concatenation of the bodies of a list of single-range requests.
pub open spec fn concat_range_bodies(contents: Seq<u8>, rs: Seq<(u64, u64)>, cap: bool) -> Seq<u8>
    decreases rs.len(),
{
    if rs.len() == 0 {
        Seq::empty()
    } else {
        concat_range_bodies(contents, rs.drop_last(), cap) + range_body(contents, rs.last(), cap)
    }
}

/// A list of valid ranges that tile the file: the first starts at zero
/// and each later one starts where the previous served body ended.
pub open spec fn ranges_chained(contents: Seq<u8>, rs: Seq<(u64, u64)>, cap: bool) -> bool {
    let size = contents.len() as u64;
    &&& forall|i: int|
        0 <= i < rs.len() ==> (#[trigger] rs[i]).0 < size && rs[i].1 >= 1 && rs[i].0 + rs[i].1
            <= size
    &&& (rs.len() >= 1 ==> rs[0].0 == 0)
    &&& forall|i: int|
        1 <= i < rs.len() ==> (#[trigger] rs[i]).0 == rs[i - 1].0 + capped_len(
            size,
            rs[i - 1].0,
            rs[i - 1].1,
            cap,
        )
}

proof fn lemma_concat_is_prefix(contents: Seq<u8>, rs: Seq<(u64, u64)>, cap: bool)
    requires
        ranges_chained(contents, rs, cap),
    ensures
        concat_range_bodies(contents, rs, cap) == contents.subrange(
            0,
            if rs.len() == 0 {
                0
            } else {
                rs.last().0 + capped_len(contents.len() as u64, rs.last().0, rs.last().1, cap)
            },
        ),
    decreases rs.len(),
{
    let size = contents.len() as u64;
    if rs.len() == 0 {
        assert(concat_range_bodies(contents, rs, cap) =~= contents.subrange(0, 0));
    } else {
        let d = rs.drop_last();
        assert(forall|i: int| 0 <= i < d.len() ==> d[i] == #[trigger] rs[i]);
        assert(ranges_chained(contents, d, cap));
        lemma_concat_is_prefix(contents, d, cap);
        let last = rs.last();
        let cl = capped_len(size, last.0, last.1, cap);
        assert(1 <= cl <= size - last.0);
        if d.len() == 0 {
            assert(last.0 == 0);
            assert(concat_range_bodies(contents, rs, cap) =~= contents.subrange(0, last.0 + cl));
        } else {
            assert(d.last() == rs[rs.len() - 2]);
            assert(last.0 == d.last().0 + capped_len(size, d.last().0, d.last().1, cap));
            assert(concat_range_bodies(contents, d, cap) == contents.subrange(0, last.0 as int));
            assert(contents.subrange(0, last.0 as int) + contents.subrange(
                last.0 as int,
                last.0 + cl,
            ) =~= contents.subrange(0, last.0 + cl));
        }
    }
}

/// Gateway range round-trip: concatenating the bodies of single-range
/// responses whose served ranges tile `[0, |F|)` yields the file bit for
/// bit, chunk capping included.
pub proof fn lemma_range_round_trip(contents: Seq<u8>, rs: Seq<(u64, u64)>, cap: bool)
    requires
        ranges_chained(contents, rs, cap),
        rs.len() >= 1,
        rs.last().0 + capped_len(contents.len() as u64, rs.last().0, rs.last().1, cap)
            == contents.len(),
    ensures
        concat_range_bodies(contents, rs, cap) == contents,
{
    lemma_concat_is_prefix(contents, rs, cap);
    assert(contents.subrange(0, contents.len() as int) =~= contents);
}

/// Gateway 206 headers: every partial response carries
/// `Content-Range: bytes s-e/|F|` with `e = s + content_length - 1`, and
/// its body is exactly the served range.
pub proof fn lemma_206_content_range(
    resp: HttpResponse,
    contents: Seq<u8>,
    method: Method,
    mime: Seq<char>,
    rg: (u64, u64),
    cap: bool,
)
    requires
        file_response_ok(resp, contents, method, mime, Some(rg), cap),
        contents.len() <= u64::MAX,
        rg.0 < contents.len(),
        rg.1 >= 1,
        rg.0 + rg.1 <= contents.len(),
    ensures
        resp.status == 206,
        resp.headers@[6] matches Header::ContentLength(cl) && {
            &&& resp.headers@[3] == (Header::ContentRange {
                start: rg.0,
                last: (rg.0 + cl - 1) as u64,
                size: contents.len() as u64,
            })
            &&& resp.body@.len() == cl
            &&& resp.body@ == contents.subrange(rg.0 as int, rg.0 + cl)
        },
{
    let size = contents.len() as u64;
    let cl = capped_len(size, rg.0, rg.1, cap);
    assert(1 <= cl <= size - rg.0);
}

} // verus!
