//! The chat-completion client: what is asked of the model, and what is made of
//! its answer.

use crate::labeld::config::{
    entries, first_reserved, is_reserved, is_reserved_key, lemma_first_reserved, parse_url,
    parsed_url, reserved_message, Failure, Json, JsonEntry, JsonView, ModelConfig, UrlParts,
    UrlView,
};
use crate::store::table::{
    lemma_table, lemma_table_push, lemma_table_update, table, unique_keys, Row,
};
use crate::text::{
    decimal, decimal_text, ends_with, join2, join3, lossy_text, quoted, same_text, trim,
    trim_end_char, trimmed, utf8_lossy, without_trailing,
};
use vstd::prelude::*;
use vstd::string::StrSliceExecFns;
use vstd::string::StringExecFns;

verus! {

#[derive(Debug, Clone)]
pub struct LabelRequest {
    pub mime_type: String,
    pub image_bytes: Vec<u8>,
    pub prompt: String,
}

#[derive(Debug, Clone, PartialEq, Eq)]
pub struct LabelResponse {
    pub text: String,
}

// ---------------------------------------------------------------------------
// The endpoint
// ---------------------------------------------------------------------------

/// What `Url::parse` and `Url::set_path` make of a base and a path.
pub uninterp spec fn url_at(base: Seq<char>, path: Seq<char>) -> std::result::Result<
    Seq<char>,
    Seq<char>,
>;

/// Letters and slashes that begin with a slash: segments that need no encoding.
pub open spec fn is_plain_path(s: Seq<char>) -> bool {
    &&& s.len() > 0
    &&& s[0] == '/'
    &&& forall|i: int| 0 <= i < s.len() ==> (#[trigger] s[i]) == '/' || 'a' <= s[i] <= 'z'
}

/// The path is that of the URL, without slashes at its end, and a plain path
/// behind it.
pub open spec fn extends_path(u: UrlView, path: Seq<char>) -> bool {
    let base = without_trailing(u.path, '/');
    base.is_prefix_of(path) && is_plain_path(path.skip(base.len() as int))
}

/// The URL with this path in place of its own is not longer than 32 bits can
/// count. Where it is not one of HTTP, the path can grow by a few characters.
pub open spec fn fits_url(u: UrlView, path: Seq<char>) -> bool {
    &&& u.href.len() <= u32::MAX
    &&& u.href.len() - u.path.len() + path.len() + if u.is_web() {
        0
    } else {
        4int
    } <= u32::MAX
}

/// `Url::parse`, `Url::set_path` and `Url::as_str`: the URL `base` with another
/// path, a function of both texts alone. It fails as parsing `base` does, and
/// only then. The path extends that of the URL, so that nothing in it needs to
/// be encoded; of a URL of HTTP the result is in its normal form and differs in
/// the path alone. A URL cannot be longer than 32 bits can count.
#[verifier::external_body]
fn url_with_path(base: &str, path: &str) -> (r: std::result::Result<String, String>)
    requires
        parsed_url(base@) matches Ok(u) ==> extends_path(u, path@) && fits_url(u, path@),
    ensures
        match r {
            Ok(u) => url_at(base@, path@) == Ok::<Seq<char>, Seq<char>>(u@),
            Err(e) => url_at(base@, path@) == Err::<Seq<char>, Seq<char>>(e@),
        },
        match parsed_url(base@) {
            Ok(u) => r matches Ok(new) && (u.is_web() ==> parsed_url(new@) == Ok::<
                UrlView,
                Seq<char>,
            >((UrlView { href: new@, path: path@, ..u }))),
            Err(text) => r matches Err(e) && e@ == text,
        },
{
    let mut u = reqwest::Url::parse(base).map_err(|e| e.to_string())?;
    u.set_path(path);
    Ok(u.as_str().to_owned())
}

/// The path that chat completions are asked at: the given one where it already
/// names them, else it with `/chat/completions` behind it.
pub open spec fn completions_path(path: Seq<char>) -> Option<Seq<char>> {
    let base = without_trailing(path, '/');
    if "/chat/completions"@.is_suffix_of(base) {
        None
    } else {
        Some(base + "/chat/completions"@)
    }
}

/// The path to put in place of `path`, or none where it already names chat
/// completions.
pub fn endpoint_path(path: &str) -> (r: Option<String>)
    ensures
        match r {
            Some(p) => completions_path(path@) == Some(p@),
            None => completions_path(path@) is None,
        },
{
    let base = trim_end_char(path, '/');
    if ends_with(base.as_str(), "/chat/completions") {
        None
    } else {
        Some(join2(base.as_str(), "/chat/completions"))
    }
}

/// The outcome of looking for the endpoint below a base URL.
pub open spec fn endpoint_outcome(base: Seq<char>, r: std::result::Result<String, Failure>) -> bool {
    match parsed_url(base) {
        Err(e) => r matches Err(f) && f.says_because("invalid model.url: "@ + base, e),
        Ok(u) => match completions_path(u.path) {
            None => r matches Ok(url) && url@ == u.href && (u.is_web() ==> parsed_url(url@) == Ok::<
                UrlView,
                Seq<char>,
            >(u)),
            Some(path) => if fits_url(u, path) {
                r matches Ok(url) && url_at(base, path) == Ok::<Seq<char>, Seq<char>>(url@) && (
                u.is_web() ==> parsed_url(url@) == Ok::<UrlView, Seq<char>>(
                    (UrlView { href: url@, path, ..u }),
                ))
            } else {
                r matches Err(f) && f.says("model.url is too long"@)
            },
        },
    }
}

/// The path that chat completions are asked at extends that of the URL.
proof fn lemma_completions_path_extends(u: UrlView)
    ensures
        completions_path(u.path) matches Some(path) ==> extends_path(u, path),
{
    let base = without_trailing(u.path, '/');
    let path = base + "/chat/completions"@;
    reveal_strlit("/chat/completions");
    assert(path.skip(base.len() as int) =~= "/chat/completions"@);
    assert(path.subrange(0, base.len() as int) =~= base);
}

/// Whether the URL with this path in place of its own is short enough.
fn is_short_url(u: &UrlParts, path: &str) -> (r: bool)
    ensures
        r == fits_url(u@, path@),
{
    let href = u.href.as_str().unicode_len() as u128;
    let own = u.path.as_str().unicode_len() as u128;
    let new = path.unicode_len() as u128;
    if same_text(u.scheme.as_str(), "http") || same_text(u.scheme.as_str(), "https") {
        href <= 0xFFFF_FFFF && href + new <= 0xFFFF_FFFF + own
    } else {
        href <= 0xFFFF_FFFF && href + new + 4 <= 0xFFFF_FFFF + own
    }
}

/// The URL that chat completions are asked at.
pub fn chat_completions_endpoint(base_url: &str) -> (r: std::result::Result<String, Failure>)
    ensures
        endpoint_outcome(base_url@, r),
{
    let url = match parse_url(base_url) {
        Ok(url) => url,
        Err(e) => {
            return Err(Failure::because(join2("invalid model.url: ", base_url), e));
        },
    };
    proof {
        lemma_completions_path_extends(url@);
    }
    match endpoint_path(url.path.as_str()) {
        None => Ok(url.href),
        Some(path) => {
            if !is_short_url(&url, path.as_str()) {
                return Err(Failure::new("model.url is too long".to_owned()));
            }
            match url_with_path(base_url, path.as_str()) {
                Ok(u) => Ok(u),
                Err(e) => Err(Failure::because(join2("invalid model.url: ", base_url), e)),
            }
        },
    }
}

/// A path that names chat completions is left alone: asking twice changes
/// nothing more.
pub proof fn law_endpoint_path_is_stable(path: Seq<char>)
    ensures
        completions_path(path) matches Some(p) ==> completions_path(p) is None,
{
    let base = without_trailing(path, '/');
    let p = base + "/chat/completions"@;
    reveal_strlit("/chat/completions");
    assert(p.last() == "/chat/completions"@.last());
    assert(without_trailing(p, '/') == p);
    assert(p.subrange(p.len() - "/chat/completions"@.len(), p.len() as int)
        =~= "/chat/completions"@);
}

/// The endpoint below a URL of HTTP is a URL of the same scheme, host and port
/// whose path names chat completions, and the endpoint below that is itself.
pub proof fn law_endpoint_is_stable(
    base: Seq<char>,
    endpoint: String,
    again: std::result::Result<String, Failure>,
)
    requires
        parsed_url(base) matches Ok(u) && u.is_web(),
        endpoint_outcome(base, Ok(endpoint)),
        endpoint_outcome(endpoint@, again),
    ensures
        again matches Ok(same) && same@ == endpoint@,
        parsed_url(base) matches Ok(u) && (parsed_url(endpoint@) matches Ok(e) && {
            &&& e.href == endpoint@
            &&& e.scheme == u.scheme
            &&& e.host == u.host
            &&& e.port == u.port
            &&& "/chat/completions"@.is_suffix_of(without_trailing(e.path, '/'))
        }),
{
    let u = parsed_url(base)->Ok_0;
    law_endpoint_path_is_stable(u.path);
}

// ---------------------------------------------------------------------------
// The request
// ---------------------------------------------------------------------------

/// The character of the standard alphabet for six bits.
pub open spec fn base64_char(n: int) -> char {
    if n < 26 {
        ('A' as int + n) as char
    } else if n < 52 {
        ('a' as int + n - 26) as char
    } else if n < 62 {
        ('0' as int + n - 52) as char
    } else if n == 62 {
        '+'
    } else {
        '/'
    }
}

/// Bytes in base64: four characters for every three bytes begun, six bits in
/// each, and padding where there are no more bits.
pub open spec fn base64_standard(bytes: Seq<u8>) -> Seq<char>
    decreases bytes.len(),
{
    if bytes.len() == 0 {
        Seq::empty()
    } else {
        let a = bytes[0] as int;
        let b = if bytes.len() > 1 {
            bytes[1] as int
        } else {
            0
        };
        let c = if bytes.len() > 2 {
            bytes[2] as int
        } else {
            0
        };
        let four = seq![
            base64_char(a / 4),
            base64_char(a % 4 * 16 + b / 16),
            if bytes.len() > 1 {
                base64_char(b % 16 * 4 + c / 64)
            } else {
                '='
            },
            if bytes.len() > 2 {
                base64_char(c % 64)
            } else {
                '='
            },
        ];
        if bytes.len() > 3 {
            four + base64_standard(bytes.skip(3))
        } else {
            four
        }
    }
}

/// `base64::engine::general_purpose::STANDARD.encode`: the bytes in base64, in
/// the standard alphabet with padding.
#[verifier::external_body]
fn encode_base64(bytes: &[u8]) -> (r: String)
    ensures
        r@ == base64_standard(bytes@),
{
    base64::Engine::encode(&base64::engine::general_purpose::STANDARD, bytes)
}

/// An image as a URL that holds it.
pub open spec fn data_url_of(mime: Seq<char>, encoded: Seq<char>) -> Seq<char> {
    "data:"@ + mime + ";base64,"@ + encoded
}

/// An image as a URL that holds it.
pub fn data_url(mime_type: &str, image_bytes: &[u8]) -> (r: String)
    ensures
        r@ == data_url_of(mime_type@, base64_standard(image_bytes@)),
{
    let encoded = encode_base64(image_bytes);
    let head = join3("data:", mime_type, ";base64,");
    join2(head.as_str(), encoded.as_str())
}

fn json_text(s: &str) -> (r: Json)
    ensures
        r.view() == JsonView::Text(s@),
{
    Json::Text(s.to_owned())
}

fn json_entry(key: &str, value: Json) -> (r: JsonEntry)
    ensures
        r.key@ == key@,
        r.value == value,
{
    JsonEntry { key: key.to_owned(), value }
}

fn json_object1(e: JsonEntry) -> (r: Json)
    ensures
        r.view() == JsonView::Object(seq![(e.key@, e.value.view())]),
{
    let mut list: Vec<JsonEntry> = Vec::new();
    list.push(e);
    let r = Json::Object(list);
    assert(r.view()->Object_0 =~= seq![(e.key@, e.value.view())]);
    r
}

fn json_object2(a: JsonEntry, b: JsonEntry) -> (r: Json)
    ensures
        r.view() == JsonView::Object(
            seq![(a.key@, a.value.view()), (b.key@, b.value.view())],
        ),
{
    let mut list: Vec<JsonEntry> = Vec::new();
    list.push(a);
    list.push(b);
    let r = Json::Object(list);
    assert(r.view()->Object_0 =~= seq![(a.key@, a.value.view()), (b.key@, b.value.view())]);
    r
}

fn json_array2(a: Json, b: Json) -> (r: Json)
    ensures
        r.view() == JsonView::Array(seq![a.view(), b.view()]),
{
    let mut list: Vec<Json> = Vec::new();
    list.push(a);
    list.push(b);
    let r = Json::Array(list);
    assert(r.view()->Array_0 =~= seq![a.view(), b.view()]);
    r
}

/// The message that tells the model what to do.
pub open spec fn system_message(prompt: Seq<char>) -> JsonView {
    JsonView::Object(
        seq![("role"@, JsonView::Text("system"@)), ("content"@, JsonView::Text(prompt))],
    )
}

/// The message that hands the model the image.
pub open spec fn user_message(image_url: Seq<char>) -> JsonView {
    JsonView::Object(
        seq![
            ("role"@, JsonView::Text("user"@)),
            (
                "content"@,
                JsonView::Array(
                    seq![
                        JsonView::Object(
                            seq![
                                ("type"@, JsonView::Text("text"@)),
                                ("text"@, JsonView::Text("Label this image."@)),
                            ],
                        ),
                        JsonView::Object(
                            seq![
                                ("type"@, JsonView::Text("image_url"@)),
                                (
                                    "image_url"@,
                                    JsonView::Object(seq![("url"@, JsonView::Text(image_url))]),
                                ),
                            ],
                        ),
                    ],
                ),
            ),
        ],
    )
}

/// The fields that the labeller sets: the model, the two messages, and a
/// temperature of zero.
pub open spec fn chat_fields(model: Seq<char>, prompt: Seq<char>, image_url: Seq<char>) -> Seq<
    (Seq<char>, JsonView),
> {
    seq![
        ("model"@, JsonView::Text(model)),
        ("messages"@, JsonView::Array(seq![system_message(prompt), user_message(image_url)])),
        ("temperature"@, JsonView::Number("0.0"@)),
    ]
}

/// The fields that the labeller sets.
pub fn chat_body(model: &str, prompt: &str, image_url: &str) -> (r: Vec<JsonEntry>)
    ensures
        entries(r@) == chat_fields(model@, prompt@, image_url@),
        unique_keys(r@),
{
    let system = json_object2(
        json_entry("role", json_text("system")),
        json_entry("content", json_text(prompt)),
    );
    let instruction = json_object2(
        json_entry("type", json_text("text")),
        json_entry("text", json_text("Label this image.")),
    );
    let image = json_object2(
        json_entry("type", json_text("image_url")),
        json_entry("image_url", json_object1(json_entry("url", json_text(image_url)))),
    );
    let user = json_object2(
        json_entry("role", json_text("user")),
        json_entry("content", json_array2(instruction, image)),
    );
    let mut body: Vec<JsonEntry> = Vec::new();
    body.push(json_entry("model", json_text(model)));
    body.push(json_entry("messages", json_array2(system, user)));
    body.push(json_entry("temperature", Json::Number("0.0".to_owned())));
    proof {
        assert(entries(body@) =~= chat_fields(model@, prompt@, image_url@));
        reveal_strlit("model");
        reveal_strlit("messages");
        reveal_strlit("temperature");
        assert("model"@.len() == 5 && "messages"@.len() == 8 && "temperature"@.len() == 11);
        assert(body@[0].key() == "model"@ && body@[1].key() == "messages"@ && body@[2].key()
            == "temperature"@);
    }
    body
}

/// Fields with others put in, the first of them first; one with the same name
/// is replaced.
pub open spec fn merged(
    body: Map<Seq<char>, JsonView>,
    extra: Seq<(Seq<char>, JsonView)>,
) -> Map<Seq<char>, JsonView>
    decreases extra.len(),
{
    if extra.len() == 0 {
        body
    } else {
        merged(body, extra.drop_last()).insert(extra.last().0, extra.last().1)
    }
}

/// The fields of a list, by name.
pub open spec fn fields(list: Seq<(Seq<char>, JsonView)>) -> Map<Seq<char>, JsonView> {
    merged(Map::empty(), list)
}

proof fn lemma_fields(list: Seq<JsonEntry>)
    ensures
        table(list) == fields(entries(list)),
    decreases list.len(),
{
    if list.len() > 0 {
        lemma_fields(list.drop_last());
        assert(entries(list).drop_last() =~= entries(list.drop_last()));
    }
}

/// Put one field in, in place of one with the same name.
fn put(body: &mut Vec<JsonEntry>, entry: JsonEntry)
    requires
        unique_keys(old(body)@),
    ensures
        unique_keys(final(body)@),
        table(final(body)@) == table(old(body)@).insert(entry.key@, entry.value.view()),
{
    proof {
        lemma_table(body@);
    }
    let mut i: usize = 0;
    while i < body.len()
        invariant
            body@ == old(body)@,
            unique_keys(body@),
            i <= body@.len(),
            forall|j: int| 0 <= j < i ==> (#[trigger] body@[j]).key() != entry.key(),
        decreases body@.len() - i,
    {
        if same_text(body[i].key.as_str(), entry.key.as_str()) {
            proof {
                lemma_table_update(body@, i as int, entry);
            }
            body.set(i, entry);
            return;
        }
        i += 1;
    }
    proof {
        lemma_table(body@);
        lemma_table_push(body@, entry);
    }
    body.push(entry);
}

/// Put the extra fields into the body. A field that the labeller sets itself is
/// refused; those before it are already in.
pub fn merge_extra_body(body: &mut Vec<JsonEntry>, extra_body: Vec<JsonEntry>) -> (r:
    std::result::Result<(), Failure>)
    requires
        unique_keys(old(body)@),
    ensures
        unique_keys(final(body)@),
        table(final(body)@) == merged(
            table(old(body)@),
            entries(extra_body@).take(first_reserved(extra_body@) as int),
        ),
        crate::labeld::config::extra_body_outcome(extra_body@, r),
{
    let ghost all = extra_body@;
    let ghost views = entries(all);
    let ghost start = table(body@);
    let ghost mut n: int = 0;
    let mut rest = extra_body;
    assert(all.skip(0) =~= all);
    assert(views.take(0) =~= Seq::empty());
    proof {
        lemma_first_reserved(all);
    }
    while rest.len() > 0
        invariant
            0 <= n <= all.len(),
            all == extra_body@,
            start == table(old(body)@),
            rest@ == all.skip(n),
            views == entries(all),
            n <= first_reserved(all) <= all.len(),
            forall|j: int|
                0 <= j < first_reserved(all) ==> !is_reserved((#[trigger] all[j]).key@),
            first_reserved(all) < all.len() ==> is_reserved(all[first_reserved(all) as int].key@),
            unique_keys(body@),
            table(body@) == merged(start, views.take(n)),
        decreases rest@.len(),
    {
        let ghost before = rest@;
        let entry = rest.remove(0);
        proof {
            assert(entry == all[n]);
            assert(rest@ =~= all.skip(n + 1));
            assert(views[n] == (entry.key@, entry.value.view()));
            assert(views.take(n + 1).drop_last() =~= views.take(n));
            assert(views.take(n + 1).last() == views[n]);
        }
        if is_reserved_key(entry.key.as_str()) {
            assert(n == first_reserved(all)) by {
                if n < first_reserved(all) {
                    assert(!is_reserved(all[n].key@));
                }
            }
            let q = quoted(entry.key.as_str());
            return Err(
                Failure::new(
                    join2(
                        "model.extra_body must not override reserved chat-completion field ",
                        q.as_str(),
                    ),
                ),
            );
        }
        put(body, entry);
        proof {
            n = n + 1;
        }
    }
    assert(n == all.len());
    Ok(())
}

/// Extra fields never change what the labeller sets.
pub proof fn law_extra_body_keeps_reserved_fields(
    body: Map<Seq<char>, JsonView>,
    extra: Seq<(Seq<char>, JsonView)>,
    key: Seq<char>,
)
    requires
        is_reserved(key),
        body.contains_key(key),
        forall|i: int| 0 <= i < extra.len() ==> !is_reserved((#[trigger] extra[i]).0),
    ensures
        merged(body, extra).contains_key(key),
        merged(body, extra)[key] == body[key],
    decreases extra.len(),
{
    if extra.len() > 0 {
        let front = extra.drop_last();
        assert(!is_reserved(extra[extra.len() - 1].0));
        assert forall|i: int| 0 <= i < front.len() implies !is_reserved((#[trigger] front[i]).0) by {
            assert(front[i] == extra[i]);
        }
        law_extra_body_keeps_reserved_fields(body, front, key);
    }
}

/// A request to send: a JSON object to post, under a time limit, with a bearer
/// token where there is a key.
#[derive(Debug)]
pub struct HttpRequest {
    pub url: String,
    pub body: Vec<JsonEntry>,
    pub authorization: Option<String>,
    pub timeout_seconds: u64,
}

/// The client for one model.
#[derive(Debug)]
pub struct OpenAiLabelClient {
    pub endpoint: String,
    pub model: String,
    pub timeout_seconds: u64,
}

/// The request asks the client's model for the label of the image, with the
/// extra fields put in.
pub open spec fn is_label_request(
    client: OpenAiLabelClient,
    request: LabelRequest,
    extra: Seq<JsonEntry>,
    api_key: Option<String>,
    http: HttpRequest,
) -> bool {
    &&& http.url@ == client.endpoint@
    &&& http.timeout_seconds == client.timeout_seconds
    &&& match api_key {
        Some(k) => http.authorization matches Some(h) && h@ == "Bearer "@ + k@,
        None => http.authorization is None,
    }
    &&& unique_keys(http.body@)
    &&& table(http.body@) == merged(
        fields(
            chat_fields(
                client.model@,
                request.prompt@,
                data_url_of(request.mime_type@, base64_standard(request.image_bytes@)),
            ),
        ),
        entries(extra),
    )
}

/// The member of a JSON object with this key.
pub open spec fn field_of(json: JsonView, key: Seq<char>) -> Option<JsonView> {
    match json {
        JsonView::Object(list) => member(list, key),
        _ => None,
    }
}

/// The element of a JSON array at this place.
pub open spec fn element_of(json: JsonView, i: int) -> Option<JsonView> {
    match json {
        JsonView::Array(list) => if 0 <= i < list.len() {
            Some(list[i])
        } else {
            None
        },
        _ => None,
    }
}

/// In the body, the content of the first message is this text.
pub open spec fn asks_with_prompt(body: Map<Seq<char>, JsonView>, prompt: Seq<char>) -> bool {
    &&& body.contains_key("messages"@)
    &&& element_of(body["messages"@], 0) matches Some(first) && field_of(first, "content"@) == Some(
        JsonView::Text(prompt),
    )
}

impl OpenAiLabelClient {
    pub fn new(config: &ModelConfig) -> (r: std::result::Result<Self, Failure>)
        ensures
            match r {
                Ok(client) => {
                    &&& endpoint_outcome(config.url@, Ok(client.endpoint))
                    &&& client.model@ == config.model@
                    &&& client.timeout_seconds == if config.timeout_seconds > 1 {
                        config.timeout_seconds
                    } else {
                        1
                    }
                    &&& client.timeout_seconds >= 1
                    &&& client.timeout_seconds != config.timeout_seconds ==> config.timeout_seconds
                        == 0
                },
                Err(f) => endpoint_outcome(config.url@, Err(f)),
            },
    {
        match chat_completions_endpoint(config.url.as_str()) {
            Ok(endpoint) => Ok(
                OpenAiLabelClient {
                    endpoint,
                    model: config.model.clone(),
                    timeout_seconds: if config.timeout_seconds > 1 {
                        config.timeout_seconds
                    } else {
                        1
                    },
                },
            ),
            Err(f) => Err(f),
        }
    }

    /// The request that asks for the label of an image.
    pub fn label_image(
        &self,
        request: &LabelRequest,
        extra_body: Vec<JsonEntry>,
        api_key: &Option<String>,
    ) -> (r: std::result::Result<HttpRequest, Failure>)
        ensures
            ({
                let at = first_reserved(extra_body@) as int;
                if at < extra_body@.len() {
                    r matches Err(f) && f.says(reserved_message(extra_body@[at].key@))
                } else {
                    r matches Ok(http) && is_label_request(
                        *self,
                        *request,
                        extra_body@,
                        *api_key,
                        http,
                    )
                }
            }),
            r matches Ok(http) ==> asks_with_prompt(table(http.body@), request.prompt@),
    {
        let image = data_url(request.mime_type.as_str(), request.image_bytes.as_slice());
        let mut body = chat_body(self.model.as_str(), request.prompt.as_str(), image.as_str());
        let ghost own = body@;
        let ghost extra = extra_body@;
        proof {
            lemma_first_reserved(extra);
        }
        match merge_extra_body(&mut body, extra_body) {
            Ok(_) => {},
            Err(f) => {
                return Err(f);
            },
        }
        assert(entries(extra).take(extra.len() as int) =~= entries(extra));
        let authorization = match api_key {
            Some(k) => Some(join2("Bearer ", k.as_str())),
            None => None,
        };
        let http = HttpRequest {
            url: self.endpoint.clone(),
            body,
            authorization,
            timeout_seconds: self.timeout_seconds,
        };
        proof {
            lemma_fields(own);
            law_label_request(*self, *request, extra, *api_key, http);
        }
        Ok(http)
    }
}

// ---------------------------------------------------------------------------
// What holds of every request
// ---------------------------------------------------------------------------

proof fn lemma_two_members(a: (Seq<char>, JsonView), b: (Seq<char>, JsonView))
    requires
        a.0 != b.0,
    ensures
        member(seq![a, b], a.0) == Some(a.1),
        member(seq![a, b], b.0) == Some(b.1),
{
    let list = seq![a, b];
    assert(list.drop_first()[0] == b);
    reveal_with_fuel(member, 2);
}

proof fn lemma_one_member(a: (Seq<char>, JsonView))
    ensures
        member(seq![a], a.0) == Some(a.1),
{
    assert(seq![a][0] == a);
}

proof fn lemma_chat_fields(model: Seq<char>, prompt: Seq<char>, image_url: Seq<char>)
    ensures
        fields(chat_fields(model, prompt, image_url)) == Map::<Seq<char>, JsonView>::empty().insert(
            "model"@,
            chat_fields(model, prompt, image_url)[0].1,
        ).insert("messages"@, chat_fields(model, prompt, image_url)[1].1).insert(
            "temperature"@,
            chat_fields(model, prompt, image_url)[2].1,
        ),
{
    let list = chat_fields(model, prompt, image_url);
    let two = list.drop_last();
    let one = two.drop_last();
    assert(list.last() == list[2] && two.last() == list[1] && one.last() == list[0]);
    assert(one.drop_last().len() == 0);
    reveal_with_fuel(merged, 4);
}

/// The body of a request, by path: `model` is the client's model and
/// `temperature` is zero; of the two `messages` the first is the system's and
/// its `content` is the prompt, the second is the user's and its `content` ends
/// with the image, as a data URL. It has no other fields but the extra ones. The
/// request goes to the endpoint, with the key as a bearer token where there is
/// one.
pub proof fn law_label_request(
    client: OpenAiLabelClient,
    request: LabelRequest,
    extra: Seq<JsonEntry>,
    api_key: Option<String>,
    http: HttpRequest,
)
    requires
        is_label_request(client, request, extra, api_key, http),
        first_reserved(extra) == extra.len(),
    ensures
        ({
            let body = table(http.body@);
            let url = "data:"@ + request.mime_type@ + ";base64,"@ + base64_standard(
                request.image_bytes@,
            );
            &&& body.contains_key("model"@)
            &&& body["model"@] == JsonView::Text(client.model@)
            &&& body.contains_key("temperature"@)
            &&& body["temperature"@] == JsonView::Number("0.0"@)
            &&& asks_with_prompt(body, request.prompt@)
            &&& body["messages"@] matches JsonView::Array(messages) && {
                &&& messages.len() == 2
                &&& messages[0]->Object_0.len() == 2
                &&& messages[1]->Object_0.len() == 2
                &&& field_of(messages[0], "role"@) == Some(JsonView::Text("system"@))
                &&& field_of(messages[0], "content"@) == Some(JsonView::Text(request.prompt@))
                &&& field_of(messages[1], "role"@) == Some(JsonView::Text("user"@))
                &&& field_of(messages[1], "content"@) matches Some(JsonView::Array(parts)) && {
                    &&& parts.len() == 2
                    &&& parts[0]->Object_0.len() == 2
                    &&& parts[1]->Object_0.len() == 2
                    &&& field_of(parts[0], "type"@) == Some(JsonView::Text("text"@))
                    &&& field_of(parts[0], "text"@) == Some(JsonView::Text("Label this image."@))
                    &&& field_of(parts[1], "type"@) == Some(JsonView::Text("image_url"@))
                    &&& field_of(parts[1], "image_url"@) matches Some(image) && field_of(
                        image,
                        "url"@,
                    ) == Some(JsonView::Text(url))
                }
            }
        }),
        forall|key: Seq<char>| #[trigger]
            table(http.body@).contains_key(key) ==> key == "model"@ || key == "messages"@ || key
                == "temperature"@ || exists|j: int|
                0 <= j < extra.len() && (#[trigger] extra[j]).key@ == key,
        http.url@ == client.endpoint@,
        http.timeout_seconds == client.timeout_seconds,
        api_key is None ==> http.authorization is None,
        api_key matches Some(k) ==> (http.authorization matches Some(h) && h@ == "Bearer "@ + k@),
{
    let url = "data:"@ + request.mime_type@ + ";base64,"@ + base64_standard(request.image_bytes@);
    let list = chat_fields(client.model@, request.prompt@, url);
    let own = fields(list);
    lemma_chat_fields(client.model@, request.prompt@, url);
    reveal_strlit("model");
    reveal_strlit("messages");
    reveal_strlit("temperature");
    reveal_strlit("role");
    reveal_strlit("content");
    reveal_strlit("type");
    reveal_strlit("text");
    reveal_strlit("image_url");
    assert("model"@.len() == 5 && "messages"@.len() == 8 && "temperature"@.len() == 11);
    assert("role"@.len() == 4 && "content"@.len() == 7 && "image_url"@.len() == 9);
    assert("type"@[1] == 'y' && "text"@[1] == 'e' && "type"@.len() == 4);
    let added = entries(extra);
    lemma_first_reserved(extra);
    assert forall|i: int| 0 <= i < added.len() implies !is_reserved((#[trigger] added[i]).0) by {
        assert(added[i].0 == extra[i].key@);
    }
    law_extra_body_keeps_reserved_fields(own, added, "model"@);
    law_extra_body_keeps_reserved_fields(own, added, "messages"@);
    law_extra_body_keeps_reserved_fields(own, added, "temperature"@);
    lemma_two_members(
        ("role"@, JsonView::Text("system"@)),
        ("content"@, JsonView::Text(request.prompt@)),
    );
    let user = user_message(url)->Object_0;
    lemma_two_members(user[0], user[1]);
    assert(user =~= seq![user[0], user[1]]);
    let parts = user[1].1->Array_0;
    let text = parts[0]->Object_0;
    lemma_two_members(text[0], text[1]);
    assert(text =~= seq![text[0], text[1]]);
    let image = parts[1]->Object_0;
    lemma_two_members(image[0], image[1]);
    assert(image =~= seq![image[0], image[1]]);
    lemma_one_member(("url"@, JsonView::Text(url)));
    assert forall|key: Seq<char>| #[trigger] table(http.body@).contains_key(key) implies key
        == "model"@ || key == "messages"@ || key == "temperature"@ || exists|j: int|
        0 <= j < extra.len() && (#[trigger] extra[j]).key@ == key by {
        lemma_merged_keys(own, added, key);
        if !own.contains_key(key) {
            let j = choose|j: int| 0 <= j < added.len() && (#[trigger] added[j]).0 == key;
            assert(extra[j].key@ == key);
        }
    }
}

/// Requests that differ in the prompt differ in the body, and so do requests to
/// different models and requests with different images of one type.
pub proof fn law_bodies_tell_requests_apart(
    client: OpenAiLabelClient,
    other_client: OpenAiLabelClient,
    request: LabelRequest,
    other: LabelRequest,
    extra: Seq<JsonEntry>,
    api_key: Option<String>,
    http: HttpRequest,
    other_http: HttpRequest,
)
    requires
        is_label_request(client, request, extra, api_key, http),
        is_label_request(other_client, other, extra, api_key, other_http),
        first_reserved(extra) == extra.len(),
        table(http.body@) == table(other_http.body@),
    ensures
        request.prompt@ == other.prompt@,
        client.model@ == other_client.model@,
        request.mime_type@ == other.mime_type@ ==> base64_standard(request.image_bytes@)
            == base64_standard(other.image_bytes@),
{
    law_label_request(client, request, extra, api_key, http);
    law_label_request(other_client, other, extra, api_key, other_http);
    let front = "data:"@ + request.mime_type@ + ";base64,"@;
    let a = base64_standard(request.image_bytes@);
    let b = base64_standard(other.image_bytes@);
    if request.mime_type@ == other.mime_type@ {
        assert(front + a == front + b);
        assert(a =~= (front + a).skip(front.len() as int));
        assert(b =~= (front + b).skip(front.len() as int));
    }
}

/// Every extra field is in the body, the last one of a name, and beside them and
/// the fields that were there before the body has none.
pub proof fn law_extra_fields_are_sent(
    body: Map<Seq<char>, JsonView>,
    extra: Seq<(Seq<char>, JsonView)>,
    i: int,
    key: Seq<char>,
)
    requires
        0 <= i < extra.len(),
        forall|j: int| i < j < extra.len() ==> (#[trigger] extra[j]).0 != extra[i].0,
    ensures
        merged(body, extra).contains_key(extra[i].0),
        merged(body, extra)[extra[i].0] == extra[i].1,
        merged(body, extra).contains_key(key) <==> body.contains_key(key) || exists|j: int|
            0 <= j < extra.len() && (#[trigger] extra[j]).0 == key,
    decreases extra.len(),
{
    lemma_merged_keys(body, extra, key);
    let front = extra.drop_last();
    if i < front.len() {
        assert(extra[extra.len() - 1].0 != extra[i].0);
        assert forall|j: int| i < j < front.len() implies (#[trigger] front[j]).0 != front[i].0 by {
            assert(extra[j].0 != extra[i].0);
        }
        law_extra_fields_are_sent(body, front, i, key);
    }
}

proof fn lemma_merged_keys(
    body: Map<Seq<char>, JsonView>,
    extra: Seq<(Seq<char>, JsonView)>,
    key: Seq<char>,
)
    ensures
        merged(body, extra).contains_key(key) <==> body.contains_key(key) || exists|j: int|
            0 <= j < extra.len() && (#[trigger] extra[j]).0 == key,
    decreases extra.len(),
{
    if extra.len() > 0 {
        let front = extra.drop_last();
        lemma_merged_keys(body, front, key);
        assert forall|j: int| 0 <= j < front.len() implies #[trigger] front[j] == extra[j] by {}
        if exists|j: int| 0 <= j < extra.len() && (#[trigger] extra[j]).0 == key {
            let j = choose|j: int| 0 <= j < extra.len() && (#[trigger] extra[j]).0 == key;
            if j < front.len() {
                assert(front[j].0 == key);
            }
        }
        if exists|j: int| 0 <= j < front.len() && (#[trigger] front[j]).0 == key {
            let j = choose|j: int| 0 <= j < front.len() && (#[trigger] front[j]).0 == key;
            assert(extra[j].0 == key);
        }
        assert(extra[extra.len() - 1] == extra.last());
    }
}

/// The path of the endpoint is that of the URL, without the slashes at its end,
/// with `/chat/completions` behind it where it does not end so already.
pub proof fn law_endpoint_path(front: Seq<char>, slashes: Seq<char>)
    requires
        front.len() == 0 || front[front.len() - 1] != '/',
        forall|i: int| 0 <= i < slashes.len() ==> #[trigger] slashes[i] == '/',
    ensures
        completions_path(front + "/chat/completions"@ + slashes) is None,
        (forall|x: Seq<char>| front != #[trigger] (x + "/chat/completions"@))
            ==> completions_path(front + slashes) == Some(front + "/chat/completions"@),
{
    let name = "/chat/completions"@;
    reveal_strlit("/chat/completions");
    let named = front + name;
    assert(named.last() == 's');
    crate::text::law_trailing_run(named, '/', slashes);
    crate::text::law_trailing_run(front, '/', slashes);
    assert(named.subrange(named.len() - name.len(), named.len() as int) =~= name);
    if name.is_suffix_of(front) {
        let x = front.take(front.len() - name.len());
        assert(front =~= x + name);
    }
}

// ---------------------------------------------------------------------------
// The answer
// ---------------------------------------------------------------------------

/// Check the status of an answer: 200 to 299 is a success.
pub fn check_status(status: u16, body: &[u8]) -> (r: std::result::Result<(), Failure>)
    ensures
        if 200 <= status < 300 {
            r is Ok
        } else {
            r matches Err(f) && f.says(
                "label request failed with status "@ + decimal(status as nat) + ": "@ + lossy_text(
                    body@,
                ),
            )
        },
        r is Ok <==> status / 100 == 2,
{
    if 200 <= status && status < 300 {
        return Ok(());
    }
    let code = decimal_text(status as u64);
    let text = utf8_lossy(body);
    let head = join3("label request failed with status ", code.as_str(), ": ");
    Err(Failure::new(join2(head.as_str(), text.as_str())))
}

#[derive(Debug)]
pub struct ChatMessageResponse {
    pub content: Option<Json>,
    /// The content as JSON text.
    pub content_text: String,
}

#[derive(Debug)]
pub struct ChatChoice {
    pub message: ChatMessageResponse,
}

#[derive(Debug)]
pub struct ChatCompletionResponse {
    pub choices: Vec<ChatChoice>,
}

/// The value of the first entry with this key.
pub open spec fn member(list: Seq<(Seq<char>, JsonView)>, key: Seq<char>) -> Option<JsonView>
    decreases list.len(),
{
    if list.len() == 0 {
        None
    } else if list[0].0 == key {
        Some(list[0].1)
    } else {
        member(list.drop_first(), key)
    }
}

/// The text of a content part: its member `text`, where it is an object that
/// has one and it is a string; else nothing.
pub open spec fn part_text(part: JsonView) -> Seq<char> {
    match part {
        JsonView::Object(list) => match member(list, "text"@) {
            Some(JsonView::Text(t)) => t,
            _ => Seq::empty(),
        },
        _ => Seq::empty(),
    }
}

/// The texts of content parts, one after the other.
pub open spec fn parts_text(parts: Seq<JsonView>) -> Seq<char>
    decreases parts.len(),
{
    if parts.len() == 0 {
        Seq::empty()
    } else {
        parts_text(parts.drop_last()) + part_text(parts.last())
    }
}

/// What is made of the content of an answer: its text, trimmed, or the text of
/// the error.
pub open spec fn content_label(content: Option<JsonView>, shown: Seq<char>) -> std::result::Result<
    Seq<char>,
    Seq<char>,
> {
    match content {
        None => Err("chat completion returned empty content"@),
        Some(JsonView::Text(t)) => label_or_error(t),
        Some(JsonView::Array(parts)) => label_or_error(parts_text(parts)),
        Some(_) => Err("unsupported chat completion content: "@ + shown),
    }
}

/// A label is a text that is not empty once trimmed.
pub open spec fn label_or_error(text: Seq<char>) -> std::result::Result<Seq<char>, Seq<char>> {
    if trimmed(text).len() == 0 {
        Err("model returned empty label text"@)
    } else {
        Ok(trimmed(text))
    }
}

/// What is made of an answer: the label in its first choice, or the text of the
/// error.
pub open spec fn answered_label(response: ChatCompletionResponse) -> std::result::Result<
    Seq<char>,
    Seq<char>,
> {
    if response.choices@.len() == 0 {
        Err("chat completion returned no choices"@)
    } else {
        let message = response.choices@[0].message;
        content_label(
            match message.content {
                Some(json) => Some(json.view()),
                None => None,
            },
            message.content_text@,
        )
    }
}

fn text_of_part(part: &Json) -> (r: String)
    ensures
        r@ == part_text(part.view()),
{
    match part {
        Json::Object(list) => {
            let ghost views = part.view()->Object_0;
            let mut i: usize = 0;
            assert(views.skip(0) =~= views);
            while i < list.len()
                invariant
                    i <= list@.len(),
                    part.view() == JsonView::Object(views),
                    views.len() == list@.len(),
                    forall|j: int|
                        0 <= j < list@.len() ==> #[trigger] views[j] == (
                            list@[j].key@,
                            list@[j].value.view(),
                        ),
                    member(views, "text"@) == member(views.skip(i as int), "text"@),
                decreases list@.len() - i,
            {
                assert(views.skip(i as int)[0] == views[i as int]);
                assert(views.skip(i as int).drop_first() =~= views.skip(i + 1));
                if same_text(list[i].key.as_str(), "text") {
                    return match &list[i].value {
                        Json::Text(t) => t.clone(),
                        _ => String::new(),
                    };
                }
                i += 1;
            }
            String::new()
        },
        _ => String::new(),
    }
}

fn text_of_parts(parts: &Vec<Json>) -> (r: String)
    ensures
        r@ == parts_text(parts@.map_values(|j: Json| j.view())),
{
    let ghost views = parts@.map_values(|j: Json| j.view());
    let mut out = String::new();
    let mut i: usize = 0;
    assert(views.take(0) =~= Seq::empty());
    while i < parts.len()
        invariant
            i <= parts@.len(),
            views == parts@.map_values(|j: Json| j.view()),
            out@ == parts_text(views.take(i as int)),
        decreases parts@.len() - i,
    {
        assert(views.take(i + 1).drop_last() =~= views.take(i as int));
        assert(views.take(i + 1).last() == parts@[i as int].view());
        let text = text_of_part(&parts[i]);
        out.append(text.as_str());
        i += 1;
    }
    assert(views.take(i as int) =~= views);
    out
}

/// The label in an answer.
pub fn extract_text(response: &ChatCompletionResponse) -> (r: std::result::Result<String, Failure>)
    ensures
        match answered_label(*response) {
            Ok(text) => r matches Ok(t) && t@ == text,
            Err(message) => r matches Err(f) && f.says(message),
        },
{
    if response.choices.len() == 0 {
        return Err(Failure::new("chat completion returned no choices".to_owned()));
    }
    let message = &response.choices[0].message;
    let text = match &message.content {
        None => {
            return Err(Failure::new("chat completion returned empty content".to_owned()));
        },
        Some(content) => match content {
            Json::Text(t) => t.clone(),
            Json::Array(parts) => {
                assert(content.view()->Array_0 =~= parts@.map_values(|j: Json| j.view()));
                text_of_parts(parts)
            },
            _ => {
                return Err(
                    Failure::new(
                        join2(
                            "unsupported chat completion content: ",
                            message.content_text.as_str(),
                        ),
                    ),
                );
            },
        },
    };
    let label = trim(text.as_str());
    if label.is_empty() {
        return Err(Failure::new("model returned empty label text".to_owned()));
    }
    Ok(label.to_owned())
}

// ---------------------------------------------------------------------------
// What holds of every answer
// ---------------------------------------------------------------------------

/// The label in an answer whose content is a text is that text without the white
/// space around it; a blank one is an error.
pub proof fn law_label_is_the_trimmed_text(
    lead: Seq<char>,
    core: Seq<char>,
    trail: Seq<char>,
    shown: Seq<char>,
)
    requires
        crate::text::is_blank(lead),
        crate::text::is_blank(trail),
        crate::text::has_no_margin(core),
    ensures
        core.len() > 0 ==> content_label(Some(JsonView::Text(lead + core + trail)), shown) == Ok::<
            Seq<char>,
            Seq<char>,
        >(core),
        core.len() == 0 ==> content_label(Some(JsonView::Text(lead + core + trail)), shown) is Err,
{
    crate::text::law_trimming_leaves_the_core(lead, core, trail);
}

/// The texts of content parts are put together in their order, and a part that
/// has none adds nothing; the label is what a text content of the same
/// characters would give.
pub proof fn law_content_parts_are_put_together(
    a: Seq<JsonView>,
    b: Seq<JsonView>,
    text: Seq<char>,
    shown: Seq<char>,
)
    ensures
        parts_text(a + b) == parts_text(a) + parts_text(b),
        parts_text(
            seq![JsonView::Object(seq![("text"@, JsonView::Text(text))])],
        ) == text,
        content_label(Some(JsonView::Array(a)), shown) == content_label(
            Some(JsonView::Text(parts_text(a))),
            shown,
        ),
    decreases b.len(),
{
    let part = JsonView::Object(seq![("text"@, JsonView::Text(text))]);
    lemma_one_member(("text"@, JsonView::Text(text)));
    assert(seq![part].drop_last() =~= Seq::<JsonView>::empty());
    assert(parts_text(Seq::<JsonView>::empty()) =~= Seq::empty());
    assert(seq![part].last() == part);
    assert(parts_text(seq![part]) =~= text);
    if b.len() == 0 {
        assert(a + b =~= a);
        assert(parts_text(a + b) =~= parts_text(a) + parts_text(b));
    } else {
        assert((a + b).last() == b.last());
        assert((a + b).drop_last() =~= a + b.drop_last());
        law_content_parts_are_put_together(a, b.drop_last(), text, shown);
        assert(parts_text(a + b) =~= parts_text(a) + parts_text(b));
    }
}

/// An answer without a text in its content has no label.
pub proof fn law_no_label_without_a_text(content: Option<JsonView>, shown: Seq<char>)
    requires
        content matches Some(json) ==> !(json is Text) && !(json is Array),
    ensures
        content_label(content, shown) is Err,
{
}

/// The text of a content part is its first member `text`, where that is a
/// string, and nothing else; a part that is no object has none.
pub proof fn law_text_of_a_part(
    front: Seq<(Seq<char>, JsonView)>,
    value: JsonView,
    back: Seq<(Seq<char>, JsonView)>,
    other: JsonView,
)
    requires
        forall|i: int| 0 <= i < front.len() ==> (#[trigger] front[i]).0 != "text"@,
    ensures
        value matches JsonView::Text(t) ==> parts_text(
            seq![JsonView::Object(front + seq![("text"@, value)] + back)],
        ) == t,
        !(value is Text) ==> parts_text(
            seq![JsonView::Object(front + seq![("text"@, value)] + back)],
        ).len() == 0,
        parts_text(seq![JsonView::Object(front)]).len() == 0,
        !(other is Object) ==> parts_text(seq![other]).len() == 0,
{
    let list = front + seq![("text"@, value)] + back;
    lemma_first_member(front, ("text"@, value), back);
    lemma_one_part_text(JsonView::Object(list));
    lemma_one_part_text(JsonView::Object(front));
    lemma_one_part_text(other);
}

proof fn lemma_one_part_text(part: JsonView)
    ensures
        parts_text(seq![part]) == part_text(part),
{
    assert(seq![part].drop_last() =~= Seq::<JsonView>::empty());
    assert(parts_text(Seq::<JsonView>::empty()) =~= Seq::empty());
    assert(seq![part].last() == part);
    assert(parts_text(seq![part]) =~= part_text(part));
}

proof fn lemma_first_member(
    front: Seq<(Seq<char>, JsonView)>,
    entry: (Seq<char>, JsonView),
    back: Seq<(Seq<char>, JsonView)>,
)
    requires
        forall|i: int| 0 <= i < front.len() ==> (#[trigger] front[i]).0 != entry.0,
    ensures
        member(front + seq![entry] + back, entry.0) == Some(entry.1),
        member(front, entry.0) is None,
    decreases front.len(),
{
    let list = front + seq![entry] + back;
    if front.len() > 0 {
        let rest = front.drop_first();
        assert(list[0] == front[0]);
        assert(list.drop_first() =~= rest + seq![entry] + back);
        assert forall|i: int| 0 <= i < rest.len() implies (#[trigger] rest[i]).0 != entry.0 by {
            assert(rest[i] == front[i + 1]);
        }
        lemma_first_member(rest, entry, back);
    } else {
        assert(list[0] == entry);
    }
}

/// An answer gives the label in the content of its first choice, and none where
/// it has no choice.
pub proof fn law_label_of_the_first_choice(response: ChatCompletionResponse)
    ensures
        response.choices@.len() == 0 ==> answered_label(response) is Err,
        response.choices@.len() > 0 ==> {
            let message = response.choices@[0].message;
            &&& message.content is None ==> answered_label(response) is Err
            &&& message.content matches Some(json) ==> answered_label(response) == content_label(
                Some(json.view()),
                message.content_text@,
            )
        },
{
}

/// Only the first choice of an answer counts.
pub proof fn law_first_choice_counts(a: ChatCompletionResponse, b: ChatCompletionResponse)
    requires
        a.choices@.len() > 0,
        b.choices@.len() > 0,
        a.choices@[0] == b.choices@[0],
    ensures
        answered_label(a) == answered_label(b),
{
}

} // verus!
