//! The generation pipeline: for one paid request, compute the effective
//! prompt and its content hash, check the cache, and on a miss build the
//! provider request, extract and fetch the result, optionally transcode it,
//! store the object and record the artifact. No partial cache write
//! survives a failure.

use vstd::prelude::*;
use vstd::string::StrSliceExecFns;
use crate::config::Config;
use crate::hashing::{content_hash_of, hex_digits, prompt_hash};
use crate::json_tree::{path_string, JsonTree};
use crate::routes::{EndpointDef, PostProcess};
use crate::store::{opt_view, record_matches, CacheStore, ObjectStore};
use crate::text::{chars_to_string, str_eq, strip_leading, strip_leading_of, strip_trailing_of};

verus! {

/// The outcome handed back to the dispatcher.
pub struct ArtifactResult {
    pub url: String,
    pub prompt: String,
    pub cached: bool,
    pub media_type: String,
    pub quality: String,
}

/// Why a pipeline run failed. No automatic retry follows any of these; the
/// caller sees the failure and may retry the whole request.
#[derive(Debug)]
pub enum PipelineError {
    /// The provider answered abnormally or its response held no result URL.
    Provider(String),
    /// The result bytes could not be fetched.
    Download(String),
    /// The transcoding tool failed; carries its diagnostic output.
    Transcode(String),
    /// The object store or the record store refused an operation.
    Storage(String),
}

/// The prompt actually used: the caller's, or the route's default.
pub open spec fn effective_of(raw: Option<&str>, default_prompt: Seq<char>) -> Seq<char> {
    match raw {
        Some(s) => s@,
        None => default_prompt,
    }
}

/// The prompt actually used: the caller's, or the route's default.
pub fn effective_prompt<'a>(raw: Option<&'a str>, default_prompt: &'a str) -> (r: &'a str)
    ensures
        r@ == effective_of(raw, default_prompt@),
{
    match raw {
        Some(s) => s,
        None => default_prompt,
    }
}

/// The object key of an artifact: the route path without its leading
/// slashes, then the content hash as a file name with the output extension.
pub open spec fn object_key_of(path: Seq<char>, hash: Seq<char>, ext: Seq<char>) -> Seq<char> {
    strip_leading_of(path, '/') + "/"@ + hash + "."@ + ext
}

/// Build the object key of an artifact.
pub fn object_key(path: &str, hash: &str, ext: &str) -> (r: String)
    ensures
        r@ == object_key_of(path@, hash@, ext@),
{
    let seg = strip_leading(path, '/');
    let mut r = String::from_str(seg);
    r.append("/");
    r.append(hash);
    r.append(".");
    r.append(ext);
    proof {
        assert(r@ =~= object_key_of(path@, hash@, ext@));
    }
    r
}

/// The scratch file path used while transcoding: named by the content hash
/// under the scratch directory.
pub open spec fn scratch_path_of(hash: Seq<char>, ext: Seq<char>) -> Seq<char> {
    "tmp/"@ + hash + "."@ + ext
}

/// Build a scratch file path.
pub fn scratch_path(hash: &str, ext: &str) -> (r: String)
    ensures
        r@ == scratch_path_of(hash@, ext@),
{
    let mut r = String::from_str("tmp/");
    r.append(hash);
    r.append(".");
    r.append(ext);
    proof {
        assert(r@ =~= scratch_path_of(hash@, ext@));
    }
    r
}

/// The content type served for an output extension; unknown extensions map
/// to a generic binary type.
pub open spec fn mime_of(ext: Seq<char>) -> Seq<char> {
    if ext == "png"@ {
        "image/png"@
    } else if ext == "jpg"@ || ext == "jpeg"@ {
        "image/jpeg"@
    } else if ext == "gif"@ {
        "image/gif"@
    } else if ext == "mp4"@ {
        "video/mp4"@
    } else if ext == "webp"@ {
        "image/webp"@
    } else {
        "application/octet-stream"@
    }
}

/// The content type served for an output extension.
pub fn content_type_for(ext: &str) -> (r: &'static str)
    ensures
        r@ == mime_of(ext@),
{
    if str_eq(ext, "png") {
        "image/png"
    } else if str_eq(ext, "jpg") || str_eq(ext, "jpeg") {
        "image/jpeg"
    } else if str_eq(ext, "gif") {
        "image/gif"
    } else if str_eq(ext, "mp4") {
        "video/mp4"
    } else if str_eq(ext, "webp") {
        "image/webp"
    } else {
        "application/octet-stream"
    }
}

/// The argument list handed to the transcoding tool: the input path, the
/// route's own arguments, then overwrite-and-output.
pub fn transcode_args(input_path: &str, ffmpeg_args: &Vec<String>, output_path: &str) -> (r: Vec<
    String,
>)
    ensures
        r@.len() == ffmpeg_args@.len() + 4,
        r@[0]@ == "-i"@,
        r@[1]@ == input_path@,
        forall|i: int|
            0 <= i < ffmpeg_args@.len() ==> (#[trigger] r@[i + 2])@ == ffmpeg_args@[i]@,
        r@[r@.len() - 2]@ == "-y"@,
        r@[r@.len() - 1]@ == output_path@,
{
    let mut r: Vec<String> = Vec::new();
    r.push(String::from_str("-i"));
    r.push(String::from_str(input_path));
    let mut i: usize = 0;
    while i < ffmpeg_args.len()
        invariant
            0 <= i <= ffmpeg_args@.len(),
            r@.len() == i + 2,
            r@[0]@ == "-i"@,
            r@[1]@ == input_path@,
            forall|j: int| 0 <= j < i ==> (#[trigger] r@[j + 2])@ == ffmpeg_args@[j]@,
        decreases ffmpeg_args@.len() - i,
    {
        r.push(ffmpeg_args[i].clone());
        i += 1;
    }
    r.push(String::from_str("-y"));
    r.push(String::from_str(output_path));
    r
}

/// The public URL of a legacy image artifact under the service's base URL.
pub fn image_url(config: &Config, filename: &str) -> (r: String)
    ensures
        r@ == strip_trailing_of(config.public_url@, '/') + "/images/"@ + filename@,
{
    let base = crate::text::strip_trailing(config.public_url.as_str(), '/');
    let mut r = String::from_str(base);
    r.append("/images/");
    r.append(filename);
    r
}

/// The public URL of a legacy animation artifact under the service's base
/// URL.
pub fn gif_url(config: &Config, filename: &str) -> (r: String)
    ensures
        r@ == strip_trailing_of(config.public_url@, '/') + "/gifs/"@ + filename@,
{
    let base = crate::text::strip_trailing(config.public_url.as_str(), '/');
    let mut r = String::from_str(base);
    r.append("/gifs/");
    r.append(filename);
    r
}

/// How one character is written inside a JSON string literal.
pub open spec fn json_escape_char(c: char) -> Seq<char> {
    if c == '"' {
        seq!['\\', '"']
    } else if c == '\\' {
        seq!['\\', '\\']
    } else if c == '\n' {
        seq!['\\', 'n']
    } else if c == '\r' {
        seq!['\\', 'r']
    } else if c == '\t' {
        seq!['\\', 't']
    } else if (c as u32) < 32 {
        seq!['\\', 'u', '0', '0', hex_digits()[(c as u32 / 16) as int], hex_digits()[(
            c as u32 % 16) as int]]
    } else {
        seq![c]
    }
}

/// The body of a JSON string literal for the given text.
pub open spec fn json_escaped(s: Seq<char>) -> Seq<char>
    decreases s.len(),
{
    if s.len() == 0 {
        Seq::<char>::empty()
    } else {
        json_escaped(s.drop_last()) + json_escape_char(s.last())
    }
}

/// A JSON string literal for the given text, quotes included.
pub open spec fn json_quoted(s: Seq<char>) -> Seq<char> {
    seq!['"'] + json_escaped(s) + seq!['"']
}

/// One escaped character, as characters.
fn escape_char_into(c: char, out: &mut Vec<char>)
    ensures
        final(out)@ == old(out)@ + json_escape_char(c),
{
    let u = c as u32;
    if c == '"' {
        out.push('\\');
        out.push('"');
    } else if c == '\\' {
        out.push('\\');
        out.push('\\');
    } else if c == '\n' {
        out.push('\\');
        out.push('n');
    } else if c == '\r' {
        out.push('\\');
        out.push('r');
    } else if c == '\t' {
        out.push('\\');
        out.push('t');
    } else if u < 32 {
        out.push('\\');
        out.push('u');
        out.push('0');
        out.push('0');
        out.push(hex_digit_char((u / 16) as u8));
        out.push(hex_digit_char((u % 16) as u8));
    } else {
        out.push(c);
    }
    proof {
        assert(final(out)@ =~= old(out)@ + json_escape_char(c));
    }
}

/// The lowercase hex digit character of a value below 16.
fn hex_digit_char(d: u8) -> (c: char)
    requires
        d < 16,
    ensures
        c == hex_digits()[d as int],
{
    match d {
        0 => '0',
        1 => '1',
        2 => '2',
        3 => '3',
        4 => '4',
        5 => '5',
        6 => '6',
        7 => '7',
        8 => '8',
        9 => '9',
        10 => 'a',
        11 => 'b',
        12 => 'c',
        13 => 'd',
        14 => 'e',
        _ => 'f',
    }
}

/// Write the text as a JSON string literal, quotes included.
#[verifier::loop_isolation(false)]
pub fn json_quote(s: &str) -> (r: String)
    ensures
        r@ == json_quoted(s@),
{
    let n = s.unicode_len();
    let mut out: Vec<char> = Vec::new();
    out.push('"');
    let mut i: usize = 0;
    proof {
        assert(s@.subrange(0, 0) =~= Seq::<char>::empty());
        assert(out@ =~= seq!['"'] + json_escaped(s@.subrange(0, 0)));
    }
    while i < n
        invariant
            0 <= i <= n,
            n == s@.len(),
            out@ == seq!['"'] + json_escaped(s@.subrange(0, i as int)),
        decreases n - i,
    {
        let c = s.get_char(i);
        escape_char_into(c, &mut out);
        proof {
            assert(s@.subrange(0, i + 1).drop_last() =~= s@.subrange(0, i as int));
            assert(s@.subrange(0, i + 1).last() == c);
        }
        i += 1;
    }
    out.push('"');
    proof {
        assert(s@.subrange(0, n as int) =~= s@);
        assert(out@ =~= json_quoted(s@));
    }
    chars_to_string(&out)
}

/// The request-template parameters without any `prompt` entry, as values.
pub open spec fn drop_prompt_key(ps: Seq<(Seq<char>, Seq<char>)>) -> Seq<(Seq<char>, Seq<char>)>
    decreases ps.len(),
{
    if ps.len() == 0 {
        Seq::<(Seq<char>, Seq<char>)>::empty()
    } else if ps.last().0 == "prompt"@ {
        drop_prompt_key(ps.drop_last())
    } else {
        drop_prompt_key(ps.drop_last()).push(ps.last())
    }
}

/// The text of the kept parameter entries, each a quoted key, a colon, the
/// raw JSON value, and a trailing comma.
pub open spec fn entries_text_of(ps: Seq<(Seq<char>, Seq<char>)>) -> Seq<char>
    decreases ps.len(),
{
    if ps.len() == 0 {
        Seq::<char>::empty()
    } else {
        entries_text_of(ps.drop_last()) + json_quoted(ps.last().0) + ":"@ + ps.last().1
            + ","@
    }
}

/// The view of a parameter list.
pub open spec fn params_view(ps: Seq<(String, String)>) -> Seq<(Seq<char>, Seq<char>)> {
    ps.map_values(|p: (String, String)| (p.0@, p.1@))
}

/// The provider request body: one JSON object holding the route's template
/// parameters (any `prompt` entry dropped) and the effective prompt, which
/// always wins.
pub open spec fn body_text_of(ps: Seq<(Seq<char>, Seq<char>)>, prompt: Seq<char>) -> Seq<char> {
    "{"@ + entries_text_of(drop_prompt_key(ps)) + json_quoted("prompt"@) + ":"@
        + json_quoted(prompt) + "}"@
}

/// Build the provider request body: the route's template parameters merged
/// with the effective prompt, the prompt winning over any template entry.
#[verifier::loop_isolation(false)]
pub fn build_request_body(params: &Vec<(String, String)>, effective: &str) -> (r: String)
    ensures
        r@ == body_text_of(params_view(params@), effective@),
{
    let mut out = String::from_str("{");
    let n = params.len();
    let mut i: usize = 0;
    proof {
        assert(params_view(params@).subrange(0, 0) =~= Seq::<(Seq<char>, Seq<char>)>::empty());
        assert(out@ =~= "{"@ + entries_text_of(
            drop_prompt_key(params_view(params@).subrange(0, 0)),
        ));
    }
    while i < n
        invariant
            0 <= i <= n,
            n == params@.len(),
            out@ == "{"@ + entries_text_of(
                drop_prompt_key(params_view(params@).subrange(0, i as int)),
            ),
        decreases n - i,
    {
        let p = &params[i];
        proof {
            let pv = params_view(params@);
            assert(pv[i as int] == (params@[i as int].0@, params@[i as int].1@));
            assert(pv.subrange(0, i + 1).drop_last() =~= pv.subrange(0, i as int));
            assert(pv.subrange(0, i + 1).last() == pv[i as int]);
        }
        if !str_eq(p.0.as_str(), "prompt") {
            let q = json_quote(p.0.as_str());
            out.append(q.as_str());
            out.append(":");
            out.append(p.1.as_str());
            out.append(",");
            proof {
                let pv = params_view(params@);
                let dk = drop_prompt_key(pv.subrange(0, i as int));
                let dk1 = drop_prompt_key(pv.subrange(0, i + 1));
                assert(pv.subrange(0, i + 1).last().0 == params@[i as int].0@);
                assert(dk1 == dk.push(pv[i as int]));
                assert(dk1.drop_last() =~= dk);
                assert(dk1.last() == pv[i as int]);
                assert(entries_text_of(dk1) == entries_text_of(dk) + json_quoted(
                    params@[i as int].0@,
                ) + ":"@ + params@[i as int].1@ + ","@);
                assert(out@ =~= "{"@ + entries_text_of(dk1));
            }
        } else {
            proof {
                assert(drop_prompt_key(params_view(params@).subrange(0, i + 1))
                    == drop_prompt_key(params_view(params@).subrange(0, i as int)));
            }
        }
        i += 1;
    }
    let pq = json_quote("prompt");
    out.append(pq.as_str());
    out.append(":");
    let eq = json_quote(effective);
    out.append(eq.as_str());
    out.append("}");
    proof {
        assert(params_view(params@).subrange(0, n as int) =~= params_view(params@));
        assert(out@ =~= body_text_of(params_view(params@), effective@));
    }
    out
}

/// A live cached artifact exists for this route and content hash.
pub open spec fn hit_in(
    cache: Seq<crate::store::MediaRecordView>,
    path: Seq<char>,
    hash: Seq<char>,
    now: i64,
) -> bool {
    exists|i: int| 0 <= i < cache.len() && record_matches(#[trigger] cache[i], hash, path, now)
}

/// Whether a route transcodes its provider output.
pub open spec fn needs_transcode(p: PostProcess) -> bool {
    p matches PostProcess::FfmpegToGif { .. }
}

/// The bytes that are stored: the transcoder's output where the route
/// transcodes, the downloaded bytes otherwise.
pub open spec fn stored_bytes_of(
    download: Seq<u8>,
    post: PostProcess,
    transcode: Result<Vec<u8>, String>,
) -> Seq<u8> {
    if needs_transcode(post) {
        transcode->Ok_0@
    } else {
        download
    }
}

/// When a cache miss runs through every stage: the provider answered, its
/// response held the result URL, the download and (where required) the
/// transcode succeeded, and the object store accepted the upload.
pub open spec fn miss_succeeds(
    endpoint: EndpointDef,
    provider_outcome: Result<JsonTree, String>,
    download_outcome: Result<Vec<u8>, String>,
    transcode_outcome: Result<Vec<u8>, String>,
    upload_ok: bool,
) -> bool {
    &&& provider_outcome is Ok
    &&& path_string(provider_outcome->Ok_0, endpoint.response_url_path@) is Some
    &&& download_outcome is Ok
    &&& (needs_transcode(endpoint.post_process) ==> transcode_outcome is Ok)
    &&& upload_ok
}

/// Run the pipeline for one paid request against the stores, with the
/// outside world's answers supplied as arguments: the provider's parsed
/// response (or its failure), the downloaded bytes (or the failure), the
/// transcoder's output (or its diagnostic), and whether the object store
/// and the record store accepted their writes. On a cache hit nothing is
/// touched and the cached artifact is returned; on a miss each stage must
/// succeed in order, no partial cache write survives a failure, and a
/// refused record insert is tolerated: the object is already stored and
/// servable, so the artifact is still returned.
#[verifier::rlimit(100)]
pub fn run_pipeline(
    config: &Config,
    endpoint: &EndpointDef,
    raw_prompt: Option<&str>,
    quality: &str,
    payment_tx: Option<String>,
    payer_address: Option<String>,
    cache: &mut CacheStore,
    store: &mut ObjectStore,
    now: i64,
    expires_at: i64,
    provider_outcome: Result<JsonTree, String>,
    download_outcome: Result<Vec<u8>, String>,
    transcode_outcome: Result<Vec<u8>, String>,
    upload_ok: bool,
    insert_ok: bool,
) -> (r: Result<ArtifactResult, PipelineError>)
    requires
        old(cache).wf(),
        insert_ok ==> old(cache).can_insert(),
    ensures
        final(cache).wf(),
        ({
            let eff = effective_of(raw_prompt, endpoint.default_prompt@);
            let h = content_hash_of(eff);
            let hit = hit_in(old(cache)@, endpoint.path@, h, now);
            let key = object_key_of(endpoint.path@, h, endpoint.output_extension@);
            let url = strip_trailing_of(config.s3_cdn_url@, '/') + "/"@ + key;
            let success = miss_succeeds(
                *endpoint,
                provider_outcome,
                download_outcome,
                transcode_outcome,
                upload_ok,
            );
            &&& (r is Ok <==> hit || success)
            &&& (hit ==> {
                &&& r matches Ok(a) && a.cached
                &&& final(cache)@ == old(cache)@
                &&& forall|k: Seq<char>|
                    final(store).object_at(k) == old(store).object_at(k)
            })
            &&& (r matches Ok(a) ==> {
                &&& a.prompt@ == eff
                &&& a.media_type@ == endpoint.media_type@
                &&& a.quality@ == quality@
                &&& (a.cached <==> hit)
            })
            &&& (hit ==> (r matches Ok(a) && exists|i: int|
                {
                    &&& 0 <= i < old(cache)@.len()
                    &&& record_matches(#[trigger] old(cache)@[i], h, endpoint.path@, now)
                    &&& a.url@ == old(cache)@[i].s3_url
                    &&& forall|j: int|
                        0 <= j < old(cache)@.len() && record_matches(
                            #[trigger] old(cache)@[j],
                            h,
                            endpoint.path@,
                            now,
                        ) ==> old(cache)@[j].created_at <= old(cache)@[i].created_at
                }))
            &&& (!hit && success ==> {
                &&& r matches Ok(a) && !a.cached && a.url@ == url
                &&& (final(store).object_at(key) matches Some(o) && o.bytes == stored_bytes_of(
                    download_outcome->Ok_0@,
                    endpoint.post_process,
                    transcode_outcome,
                ) && o.content_type == mime_of(endpoint.output_extension@)
                    && o.world_readable)
                &&& forall|k: Seq<char>|
                    k != key ==> final(store).object_at(k) == old(store).object_at(k)
            })
            &&& (!hit && success && insert_ok ==> {
                &&& final(cache)@.len() == old(cache)@.len() + 1
                &&& final(cache)@.subrange(0, old(cache)@.len() as int) == old(cache)@
                &&& ({
                    let rec = final(cache)@.last();
                    &&& rec.endpoint_path == endpoint.path@
                    &&& rec.prompt == eff
                    &&& rec.prompt_hash == h
                    &&& rec.s3_key == key
                    &&& rec.s3_url == url
                    &&& rec.media_type == endpoint.media_type@
                    &&& rec.file_size_bytes == stored_bytes_of(
                        download_outcome->Ok_0@,
                        endpoint.post_process,
                        transcode_outcome,
                    ).len() as i64
                    &&& rec.payer_address == opt_view(payer_address)
                    &&& rec.payment_tx == opt_view(payment_tx)
                    &&& rec.created_at == now
                    &&& rec.expires_at == expires_at
                })
            })
            &&& (!hit && success && !insert_ok ==> final(cache)@ == old(cache)@)
            &&& (!hit && !success ==> {
                &&& r is Err
                &&& final(cache)@ == old(cache)@
                &&& forall|k: Seq<char>|
                    final(store).object_at(k) == old(store).object_at(k)
            })
            &&& (!hit ==> {
                &&& (provider_outcome matches Err(e) ==> (r matches Err(
                    PipelineError::Provider(m),
                ) && m@ == e@))
                &&& (provider_outcome matches Ok(t) ==> (path_string(
                    t,
                    endpoint.response_url_path@,
                ) is None ==> r matches Err(PipelineError::Provider(_))))
                &&& (provider_outcome is Ok && path_string(
                    provider_outcome->Ok_0,
                    endpoint.response_url_path@,
                ) is Some ==> (download_outcome matches Err(e) ==> (r matches Err(
                    PipelineError::Download(m),
                ) && m@ == e@)))
                &&& (provider_outcome is Ok && path_string(
                    provider_outcome->Ok_0,
                    endpoint.response_url_path@,
                ) is Some && download_outcome is Ok && needs_transcode(endpoint.post_process)
                    ==> (transcode_outcome matches Err(e) ==> (r matches Err(
                    PipelineError::Transcode(m),
                ) && m@ == e@)))
                &&& (provider_outcome is Ok && path_string(
                    provider_outcome->Ok_0,
                    endpoint.response_url_path@,
                ) is Some && download_outcome is Ok && (needs_transcode(endpoint.post_process)
                    ==> transcode_outcome is Ok) && !upload_ok ==> r matches Err(
                    PipelineError::Storage(_),
                ))
            })
        }),
{
    let effective = effective_prompt(raw_prompt, endpoint.default_prompt.as_str());
    let hash = prompt_hash(effective);
    match cache.find_by_prompt_hash(hash.as_str(), endpoint.path.as_str(), now) {
        Some(rec) => {
            return Ok(
                ArtifactResult {
                    url: rec.s3_url.clone(),
                    prompt: String::from_str(effective),
                    cached: true,
                    media_type: endpoint.media_type.clone(),
                    quality: String::from_str(quality),
                },
            );
        },
        None => {},
    }
    let tree = match provider_outcome {
        Ok(t) => t,
        Err(e) => {
            return Err(PipelineError::Provider(e));
        },
    };
    let _provider_url = match crate::json_tree::extract_url(
        &tree,
        endpoint.response_url_path.as_str(),
    ) {
        Ok(u) => u,
        Err(e) => {
            return Err(PipelineError::Provider(String::from_str(e.message())));
        },
    };
    let bytes = match download_outcome {
        Ok(b) => b,
        Err(e) => {
            return Err(PipelineError::Download(e));
        },
    };
    let stored: Vec<u8> = match &endpoint.post_process {
        PostProcess::Keep => bytes,
        PostProcess::FfmpegToGif { .. } => {
            match transcode_outcome {
                Ok(b) => b,
                Err(e) => {
                    return Err(PipelineError::Transcode(e));
                },
            }
        },
    };
    if !upload_ok {
        return Err(PipelineError::Storage(String::from_str("upload refused")));
    }
    let key = object_key(
        endpoint.path.as_str(),
        hash.as_str(),
        endpoint.output_extension.as_str(),
    );
    let content_type = content_type_for(endpoint.output_extension.as_str());
    let file_size = stored.len() as i64;
    store.upload_file(key.as_str(), stored, content_type);
    let url = crate::store::cdn_url(config, key.as_str());
    if insert_ok {
        let _id = cache.insert_media(
            endpoint.path.as_str(),
            effective,
            hash.as_str(),
            key.as_str(),
            url.as_str(),
            endpoint.media_type.as_str(),
            file_size,
            payer_address,
            payment_tx,
            now,
            expires_at,
        );
    }
    Ok(
        ArtifactResult {
            url,
            prompt: String::from_str(effective),
            cached: false,
            media_type: endpoint.media_type.clone(),
            quality: String::from_str(quality),
        },
    )
}

/// The replay guarantee, stated as two pipeline runs: after one successful
/// generation into fresh stores, an identical request — same route, same
/// prompt, whatever its payment state, and with every outside outcome a
/// failure — is answered from the cache, with the same URL, before any
/// expiry. The verifier checks this for every route, prompt, clock and
/// provider behaviour.
pub fn replay_after_generate(
    config: &Config,
    endpoint: &EndpointDef,
    raw_prompt: Option<&str>,
    quality: &str,
    payment_tx: Option<String>,
    payer_address: Option<String>,
    cache: &mut CacheStore,
    store: &mut ObjectStore,
    now1: i64,
    expires_at: i64,
    now2: i64,
    provider_outcome: Result<JsonTree, String>,
    download_outcome: Result<Vec<u8>, String>,
    transcode_outcome: Result<Vec<u8>, String>,
) -> (r: (Result<ArtifactResult, PipelineError>, Result<ArtifactResult, PipelineError>))
    requires
        old(cache).wf(),
        old(cache).can_insert(),
        old(cache)@.len() == 0,
        now2 < expires_at,
    ensures
        final(cache).wf(),
        miss_succeeds(
            *endpoint,
            provider_outcome,
            download_outcome,
            transcode_outcome,
            true,
        ) ==> (r.0 matches Ok(a) && (!a.cached && (r.1 matches Ok(b) && (b.cached && b.url@
            == a.url@)))),
{
    let ghost succeeds = miss_succeeds(
        *endpoint,
        provider_outcome,
        download_outcome,
        transcode_outcome,
        true,
    );
    let first = run_pipeline(
        config,
        endpoint,
        raw_prompt,
        quality,
        payment_tx,
        payer_address,
        cache,
        store,
        now1,
        expires_at,
        provider_outcome,
        download_outcome,
        transcode_outcome,
        true,
        true,
    );
    proof {
        let eff = effective_of(raw_prompt, endpoint.default_prompt@);
        let h = content_hash_of(eff);
        if succeeds {
            assert(record_matches(cache@.last(), h, endpoint.path@, now2));
            assert(hit_in(cache@, endpoint.path@, h, now2)) by {
                assert(cache@[cache@.len() - 1] == cache@.last());
            }
        }
    }
    let second = run_pipeline(
        config,
        endpoint,
        raw_prompt,
        quality,
        None,
        None,
        cache,
        store,
        now2,
        expires_at,
        Err(String::from_str("replayed")),
        Err(String::from_str("replayed")),
        Err(String::from_str("replayed")),
        false,
        false,
    );
    proof {
        if succeeds {
            let eff = effective_of(raw_prompt, endpoint.default_prompt@);
            let h = content_hash_of(eff);
            let i = choose|i: int|
                {
                    &&& 0 <= i < cache@.len()
                    &&& record_matches(#[trigger] cache@[i], h, endpoint.path@, now2)
                    &&& second->Ok_0.url@ == cache@[i].s3_url
                    &&& forall|j: int|
                        0 <= j < cache@.len() && record_matches(
                            #[trigger] cache@[j],
                            h,
                            endpoint.path@,
                            now2,
                        ) ==> cache@[j].created_at <= cache@[i].created_at
                };
            assert(i == 0);
            assert(cache@[0] == cache@.last());
        }
    }
    (first, second)
}

} // verus!
