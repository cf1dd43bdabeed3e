use richclip::cli::list_entry;
use richclip::clock::Timestamp;
use richclip::daemon::{DaemonState, Outcome, Reply};
use richclip::ids::ItemId;
use richclip::ipc::{
    event_passes, AddItemParams, Payload, Request, Response, WatchEvent, WatchEventsParams,
};
use richclip::labeld::client::{
    chat_body, chat_completions_endpoint, check_status, data_url, endpoint_path, extract_text,
    merge_extra_body, ChatChoice, ChatCompletionResponse, ChatMessageResponse, HttpRequest,
    LabelRequest, OpenAiLabelClient,
};
use richclip::labeld::config::{
    config_path, config_source, default_config_path, Config, ConfigSource, Failure, Json,
    JsonEntry, ModelConfig, UrlParts,
};
use richclip::labeld::worker::{
    choose_image_mime, ensure_response_ok, next_backoff, Worker, WorkerAction, WorkerEvent,
};
use richclip::{Error, Store};
use std::collections::VecDeque;

const LABEL_MIME: &str = "application/x-richclip-label";

/// An answer of the model: the status, the body and the content in it.
struct Answer {
    status: u16,
    body: &'static [u8],
    content: Option<&'static str>,
}

fn answer(content: &'static str) -> Answer {
    Answer { status: 200, body: b"", content: Some(content) }
}

fn completion(content: Option<Json>, shown: &str) -> ChatCompletionResponse {
    let message = ChatMessageResponse { content, content_text: shown.to_string() };
    ChatCompletionResponse { choices: vec![ChatChoice { message }] }
}

/// The daemon, the model and the worker between them.
struct Scene {
    daemon: DaemonState,
    watch: WatchEventsParams,
    worker: Worker,
    config: Config,
    client: OpenAiLabelClient,
    key: Option<String>,
    answers: VecDeque<Answer>,
    requests: Vec<HttpRequest>,
    log: Vec<String>,
}

fn entry(key: &str, value: Json) -> JsonEntry {
    JsonEntry { key: key.to_string(), value }
}

fn extra_body() -> Vec<JsonEntry> {
    vec![entry("max_completion_tokens", Json::Number("12".to_string()))]
}

fn test_config() -> Config {
    let mut config = Config::default();
    config.model.url = "http://127.0.0.1:8080/v1".to_string();
    config.model.model = "vision-test-model".to_string();
    config.model.timeout_seconds = 5;
    config.model.api_key_env = Some("LABELD_TEST_API_KEY".to_string());
    config.model.extra_body = extra_body();
    config.prompt.label =
        "Return one short factual label for this clipboard image. Use plain text only."
            .to_string();
    config
}

impl Scene {
    fn start(overwrite: bool, key: &str, answers: Vec<Answer>) -> Scene {
        let config = test_config();
        config.validate().expect("valid configuration");
        let client = OpenAiLabelClient::new(&config.model).expect("client");
        let key = config.model.resolved_api_key(Some(key));
        let mut worker = Worker::new(overwrite, "/run/richclip.sock".to_string());
        let watch = match worker.step(WorkerEvent::Connected).action {
            WorkerAction::Watch { params } => params,
            other => panic!("unexpected action {:?}", other),
        };
        assert!(matches!(
            worker.step(WorkerEvent::WatchStarted).action,
            WorkerAction::NextEvent
        ));
        Scene {
            daemon: DaemonState::new(Store::open(vec![], vec![], vec![]).unwrap()),
            watch,
            worker,
            config,
            client,
            key,
            answers: answers.into(),
            requests: Vec::new(),
            log: Vec::new(),
        }
    }

    fn reply(&mut self, request: Request) -> Reply {
        match self.daemon.handle_request(request) {
            Outcome::Reply(reply) => reply,
            Outcome::Watch(_) => panic!("the request is no subscription"),
        }
    }

    /// What `send_http_request` and the parser give back.
    fn ask(&mut self, mime: String, bytes: Vec<u8>) -> Result<String, Failure> {
        let request = LabelRequest {
            mime_type: mime,
            image_bytes: bytes,
            prompt: self.config.prompt.label.clone(),
        };
        let http = self.client.label_image(&request, extra_body(), &self.key)?;
        self.requests.push(http);
        let answer = self.answers.pop_front().expect("unexpected extra request");
        check_status(answer.status, answer.body)?;
        let content = answer.content.map(|s| Json::Text(s.to_string()));
        extract_text(&completion(content, ""))
    }

    /// Add an item, and let the worker handle what it is told of it.
    fn add(&mut self, formats: &[(&str, &[u8])]) -> ItemId {
        let formats =
            formats.iter().map(|(m, b)| (m.to_string(), b.to_vec())).collect();
        let reply = self.reply(Request::AddItem(AddItemParams { formats }));
        let id = match reply.response.data {
            Some(Payload::Id(id)) => id,
            other => panic!("unexpected payload {:?}", other),
        };
        for event in reply.events {
            if event_passes(&self.watch, &event) {
                self.handle(event);
            }
        }
        id
    }

    fn handle(&mut self, event: WatchEvent) {
        let mut event = WorkerEvent::Event { event };
        loop {
            let step = self.worker.step(event);
            self.log.extend(step.log);
            event = match step.action {
                WorkerAction::NextEvent => return,
                WorkerAction::Decode { id, mime } => {
                    match self.daemon.store().decode(id, &mime) {
                        Ok(bytes) => WorkerEvent::Decoded { bytes },
                        Err(error) => WorkerEvent::DecodeFailed { error },
                    }
                }
                WorkerAction::Label { mime, bytes } => match self.ask(mime, bytes) {
                    Ok(text) => WorkerEvent::Labelled { text },
                    Err(failure) => WorkerEvent::LabelFailed { failure },
                },
                WorkerAction::Update { params } => {
                    let response = self.reply(Request::UpdateItem(params)).response;
                    WorkerEvent::Answered { response }
                }
                other => panic!("unexpected action {:?}", other),
            };
        }
    }

    fn read_label(&self, id: ItemId) -> Option<String> {
        let bytes = self.daemon.store().decode(id, LABEL_MIME).ok()?;
        Some(String::from_utf8(bytes).expect("label utf-8"))
    }

    fn listed_label(&self, id: ItemId) -> Option<String> {
        let store = self.daemon.store();
        list_entry(store, &store.get_item(id).unwrap(), None).label
    }
}

/// A member of an object.
fn member<'a>(value: &'a Json, key: &str) -> &'a Json {
    match value {
        Json::Object(list) => &list.iter().find(|e| e.key == key).expect("member").value,
        other => panic!("no object: {:?}", other),
    }
}

fn element(value: &Json, i: usize) -> &Json {
    match value {
        Json::Array(list) => &list[i],
        other => panic!("no array: {:?}", other),
    }
}

fn text(value: &Json) -> &str {
    match value {
        Json::Text(s) => s,
        other => panic!("no string: {:?}", other),
    }
}

#[test]
fn labels_images_and_skips_existing_empty_and_failed_items() {
    let failing = Answer { status: 500, body: b"upstream error", content: None };
    let mut scene = Scene::start(
        false,
        "integration-secret",
        vec![answer("mountain lake"), answer("   "), failing, answer("forest path")],
    );

    let labelled_id = scene.add(&[("image/png", b"first image bytes")]);
    assert_eq!(scene.read_label(labelled_id).as_deref(), Some("mountain lake"));
    assert_eq!(scene.listed_label(labelled_id).as_deref(), Some("mountain lake"));

    let skipped_id =
        scene.add(&[("image/png", b"prelabelled image bytes"), (LABEL_MIME, b"keep me")]);
    assert_eq!(
        scene.read_label(skipped_id).as_deref(),
        Some("keep me"),
        "existing label should remain unchanged"
    );
    assert_eq!(scene.requests.len(), 1);

    let empty_id = scene.add(&[("image/png", b"empty label bytes")]);
    assert_eq!(scene.requests.len(), 2);
    assert!(scene.read_label(empty_id).is_none(), "label unexpectedly present");

    let failing_id = scene.add(&[("image/png", b"failing label bytes")]);
    assert_eq!(scene.requests.len(), 3);
    assert!(scene.read_label(failing_id).is_none(), "label unexpectedly present");

    let post_failure_id = scene.add(&[("image/png", b"post failure bytes")]);
    assert_eq!(scene.requests.len(), 4);
    assert_eq!(scene.read_label(post_failure_id).as_deref(), Some("forest path"));

    assert_eq!(scene.requests.len(), 4, "prelabelled item should have been skipped");
    let first = &scene.requests[0];
    assert_eq!(first.url, "http://127.0.0.1:8080/v1/chat/completions");
    assert_eq!(first.authorization.as_deref(), Some("Bearer integration-secret"));
    assert_eq!(first.timeout_seconds, 5);

    let field = |key: &str| &first.body.iter().find(|e| e.key == key).expect("field").value;
    assert_eq!(text(field("model")), "vision-test-model");
    assert!(matches!(field("max_completion_tokens"), Json::Number(n) if n == "12"));
    let system = element(field("messages"), 0);
    assert_eq!(text(member(system, "role")), "system");
    let parts = member(element(field("messages"), 1), "content");
    assert_eq!(text(member(element(parts, 0), "type")), "text");
    assert_eq!(text(member(element(parts, 1), "type")), "image_url");
    let image_url = text(member(member(element(parts, 1), "image_url"), "url"));
    assert!(
        image_url.starts_with("data:image/png;base64,"),
        "expected data URL image part, got {image_url}"
    );
    assert!(scene.answers.is_empty(), "unused mock responses remain");

    assert_eq!(
        scene.log,
        [
            format!("richclip-labeld: labelled item {} from image/png", labelled_id.to_text()),
            format!(
                "richclip-labeld: item {} skipped; label already present",
                skipped_id.to_text()
            ),
            format!(
                "richclip-labeld: item {} failed: model returned empty label text",
                empty_id.to_text()
            ),
            format!(
                "richclip-labeld: item {} failed: label request failed with status 500: upstream error",
                failing_id.to_text()
            ),
            format!(
                "richclip-labeld: labelled item {} from image/png",
                post_failure_id.to_text()
            ),
        ]
    );
}

#[test]
fn overwrite_replaces_existing_labels() {
    let mut scene = Scene::start(true, "overwrite-secret", vec![answer("new label")]);
    let id = scene.add(&[("image/png", b"overwrite image bytes"), (LABEL_MIME, b"old label")]);
    assert_eq!(scene.requests.len(), 1);
    assert_eq!(scene.read_label(id).as_deref(), Some("new label"));
    assert_eq!(scene.listed_label(id).as_deref(), Some("new label"));
}

// The worker

#[test]
fn waits_double_up_to_the_longest() {
    let mut waits = vec![1];
    for _ in 0..6 {
        waits.push(next_backoff(*waits.last().unwrap()));
    }
    assert_eq!(waits, [1, 2, 4, 8, 16, 30, 30]);
    assert_eq!(next_backoff(u64::MAX), 30);
}

#[test]
fn a_lost_daemon_is_looked_for_again() {
    let mut worker = Worker::new(false, "/s".to_string());
    let step = worker.step(WorkerEvent::ConnectFailed);
    assert!(matches!(step.action, WorkerAction::Retry { seconds: 1 }));
    assert_eq!(
        step.log.unwrap(),
        "richclip-labeld: daemon unavailable at \"/s\"; retrying in 1s"
    );
    worker.step(WorkerEvent::Connected);
    let step = worker.step(WorkerEvent::WatchFailed { error: "refused".to_string() });
    assert!(matches!(step.action, WorkerAction::Retry { seconds: 2 }));
    assert_eq!(
        step.log.unwrap(),
        "richclip-labeld: failed to start watch stream: refused; retrying in 2s"
    );
    worker.step(WorkerEvent::Connected);
    worker.step(WorkerEvent::WatchStarted);
    let step = worker.step(WorkerEvent::StreamEnded);
    assert!(matches!(step.action, WorkerAction::Retry { seconds: 1 }));
    assert_eq!(
        step.log.unwrap(),
        "richclip-labeld: watch stream disconnected; retrying in 1s"
    );
}

fn watching() -> Worker {
    let mut worker = Worker::new(false, "/s".to_string());
    worker.step(WorkerEvent::Connected);
    worker.step(WorkerEvent::WatchStarted);
    worker
}

fn added(id: ItemId, formats: &[&str]) -> WorkerEvent {
    WorkerEvent::Event {
        event: WatchEvent::ItemAdded {
            id,
            created_at: Timestamp { nanos: 0 },
            formats: formats.iter().map(|s| s.to_string()).collect(),
        },
    }
}

#[test]
fn failures_of_an_item_are_logged_and_passed_over() {
    let id = ItemId { bits: 1 };
    let name = id.to_text();
    let mut worker = watching();
    let step = worker.step(added(id, &["text/plain"]));
    assert_eq!(
        step.log.unwrap(),
        format!("richclip-labeld: item {name} skipped; no supported image MIME")
    );
    worker.step(added(id, &["image/bmp"]));
    let step = worker.step(WorkerEvent::DecodeFailed { error: Error::NotFound });
    assert_eq!(
        step.log.unwrap(),
        format!(
            "richclip-labeld: item {name} failed: failed to decode image/bmp for item {name}: not found"
        )
    );
    worker.step(added(id, &["image/bmp"]));
    worker.step(WorkerEvent::Decoded { bytes: vec![1] });
    let failure = Failure::because("failed to send".to_string(), "timeout".to_string());
    let step = worker.step(WorkerEvent::LabelFailed { failure });
    assert_eq!(
        step.log.unwrap(),
        format!("richclip-labeld: item {name} failed: failed to send: timeout")
    );
    worker.step(added(id, &["image/bmp"]));
    worker.step(WorkerEvent::Decoded { bytes: vec![1] });
    match worker.step(WorkerEvent::Labelled { text: " cat \n".to_string() }).action {
        WorkerAction::Update { params } => {
            assert_eq!(params.id, id);
            assert_eq!(params.set_formats, [(LABEL_MIME.to_string(), b"cat".to_vec())]);
            assert!(params.remove_mimes.is_empty());
        }
        other => panic!("unexpected action {:?}", other),
    }
    let response = Response::of_error(&Error::NotFound);
    let step = worker.step(WorkerEvent::Answered { response });
    assert_eq!(
        step.log.unwrap(),
        format!(
            "richclip-labeld: item {name} failed: failed to write {LABEL_MIME} for item {name}: daemon rejected update (not_found): not found"
        )
    );
    for (event, text) in [
        (WorkerEvent::UpdateUnavailable, "daemon unavailable at \"/s\""),
        (WorkerEvent::UpdateFailed { error: "eof".to_string() }, "IPC update failed: eof"),
    ] {
        worker.step(added(id, &["image/bmp"]));
        worker.step(WorkerEvent::Decoded { bytes: vec![1] });
        worker.step(WorkerEvent::Labelled { text: "cat".to_string() });
        let step = worker.step(event);
        assert_eq!(step.log.unwrap(), format!("richclip-labeld: item {name} failed: {text}"));
        assert!(matches!(step.action, WorkerAction::NextEvent));
    }
    let step = worker.step(WorkerEvent::Event { event: WatchEvent::ItemDeleted { id } });
    assert!(step.log.is_none());
}

#[test]
fn the_best_image_type_is_labelled() {
    let list = |mimes: &[&str]| mimes.iter().map(|s| s.to_string()).collect::<Vec<String>>();
    assert_eq!(choose_image_mime(&list(&["image/bmp", "image/webp"])), Some("image/webp"));
    assert_eq!(choose_image_mime(&list(&["image/jpeg", "image/png"])), Some("image/png"));
    assert_eq!(choose_image_mime(&list(&["image/gif"])), None);
}

#[test]
fn refused_updates_are_failures() {
    assert!(ensure_response_ok(&Response::ok(None)).is_ok());
    let bare = Response { ok: false, error: None, code: None, data: None };
    assert_eq!(
        ensure_response_ok(&bare).unwrap_err().line(),
        "daemon rejected update (error): unknown daemon error"
    );
}

// The client

#[test]
fn the_endpoint_is_found_below_the_base() {
    let at = |url: &str| chat_completions_endpoint(url).unwrap();
    assert_eq!(at("http://h/v1"), "http://h/v1/chat/completions");
    assert_eq!(at("http://h/v1///"), "http://h/v1/chat/completions");
    assert_eq!(at("http://h"), "http://h/chat/completions");
    assert_eq!(at("http://h/v1/chat/completions"), "http://h/v1/chat/completions");
    assert_eq!(at("http://h/v1?a=b"), "http://h/v1/chat/completions?a=b");
    assert_eq!(
        at("https://u:p@H:8080/a b//?q#f"),
        "https://u:p@h:8080/a%20b/chat/completions?q#f"
    );
    assert_eq!(at("ftp://h/x"), "ftp://h/x/chat/completions");
    for base in [
        "http://h",
        "http://h/v1/",
        "https://u:p@H:8080/a b//?q#f",
        "http://h/chat/completions//",
    ] {
        let once = at(base);
        assert_eq!(at(&once), once);
    }
    let err = chat_completions_endpoint("no url").unwrap_err();
    assert_eq!(err.message, "invalid model.url: no url");
    assert_eq!(err.cause.as_deref(), Some("relative URL without a base"));
    assert_eq!(endpoint_path("/v1").as_deref(), Some("/v1/chat/completions"));
    assert!(endpoint_path("/v1/chat/completions/").is_none());
}

#[test]
fn images_become_data_urls() {
    assert_eq!(data_url("image/png", b""), "data:image/png;base64,");
    assert_eq!(data_url("image/png", b"f"), "data:image/png;base64,Zg==");
    assert_eq!(data_url("image/png", b"fo"), "data:image/png;base64,Zm8=");
    assert_eq!(data_url("image/png", b"foob"), "data:image/png;base64,Zm9vYg==");
    assert_eq!(data_url("image/bmp", &[0xfb, 0xff, 0xbf]), "data:image/bmp;base64,+/+/");
}

#[test]
fn extra_fields_are_merged_but_never_override() {
    let mut body = chat_body("m", "p", "u");
    assert_eq!(
        body.iter().map(|e| e.key.as_str()).collect::<Vec<_>>(),
        ["model", "messages", "temperature"]
    );
    assert!(matches!(&body[2].value, Json::Number(n) if n == "0.0"));
    let extra = vec![entry("top_p", Json::Null), entry("top_p", Json::Bool(true))];
    merge_extra_body(&mut body, extra).unwrap();
    assert_eq!(body.len(), 4);
    assert!(matches!(&body[3].value, Json::Bool(true)));
    let extra = vec![entry("seed", Json::Null), entry("model", Json::Null)];
    let err = merge_extra_body(&mut body, extra).unwrap_err();
    assert_eq!(
        err.line(),
        "model.extra_body must not override reserved chat-completion field \"model\""
    );
    assert_eq!(text(&body[0].value), "m");
}

#[test]
fn a_request_without_a_key_has_no_authorization() {
    let mut config = ModelConfig::default();
    config.timeout_seconds = 0;
    let client = OpenAiLabelClient::new(&config).unwrap();
    assert_eq!(client.endpoint, "http://127.0.0.1:11434/v1/chat/completions");
    let request = LabelRequest {
        mime_type: "image/png".to_string(),
        image_bytes: vec![],
        prompt: "p".to_string(),
    };
    let http = client.label_image(&request, vec![], &None).unwrap();
    assert!(http.authorization.is_none());
    assert_eq!(http.timeout_seconds, 1);
    let err = client
        .label_image(&request, vec![entry("temperature", Json::Null)], &None)
        .unwrap_err();
    assert!(err.line().ends_with("\"temperature\""));
}

#[test]
fn labels_are_taken_from_the_first_choice() {
    let part = |t: Json| Json::Object(vec![entry("text", t)]);
    let s = |t: &str| Json::Text(t.to_string());
    let label = |content: Json| extract_text(&completion(Some(content), "{}"));
    assert_eq!(label(s(" a cat \n")).unwrap(), "a cat");
    assert_eq!(
        label(Json::Array(vec![part(s("a ")), Json::Null, part(Json::Null), part(s("cat"))]))
            .unwrap(),
        "a cat"
    );
    assert_eq!(label(s(" \t")).unwrap_err().line(), "model returned empty label text");
    assert_eq!(
        label(Json::Object(vec![])).unwrap_err().line(),
        "unsupported chat completion content: {}"
    );
    assert_eq!(
        extract_text(&completion(None, "")).unwrap_err().line(),
        "chat completion returned empty content"
    );
    assert_eq!(
        extract_text(&ChatCompletionResponse { choices: vec![] }).unwrap_err().line(),
        "chat completion returned no choices"
    );
}

#[test]
fn statuses_outside_the_two_hundreds_fail() {
    assert!(check_status(200, b"").is_ok());
    assert!(check_status(299, b"").is_ok());
    assert_eq!(
        check_status(404, &[b'n', b'o', 0xff]).unwrap_err().line(),
        "label request failed with status 404: no\u{fffd}"
    );
    assert!(check_status(199, b"").is_err());
    assert!(check_status(300, b"").is_err());
}

// The configuration

#[test]
fn configurations_are_validated() {
    assert!(Config::default().validate().is_ok());
    let check = |change: &dyn Fn(&mut Config)| {
        let mut config = test_config();
        change(&mut config);
        config.validate().unwrap_err().line()
    };
    assert_eq!(check(&|c| c.model.model = " ".to_string()), "model.model must not be empty");
    assert_eq!(
        check(&|c| c.model.timeout_seconds = 0),
        "model.timeout_seconds must be greater than 0"
    );
    assert_eq!(check(&|c| c.prompt.label = String::new()), "prompt.label must not be empty");
    assert_eq!(
        check(&|c| c.model.url = "x".to_string()),
        "invalid model.url: x: relative URL without a base"
    );
    assert_eq!(
        check(&|c| c.model.url = "ftp://h/".to_string()),
        "model.url must use http or https, got ftp"
    );
    assert_eq!(
        check(&|c| c.model.extra_body.push(entry("messages", Json::Null))),
        "model.extra_body must not override reserved chat-completion field \"messages\""
    );
    let https = UrlParts {
        href: "https://h/".to_string(),
        scheme: "https".to_string(),
        host: Some("h".to_string()),
        port: None,
        path: "/".to_string(),
    };
    assert!(test_config().validate_with(&Ok(https)).is_ok());
}

#[test]
fn keys_come_from_the_configuration_first() {
    let mut model = ModelConfig::default();
    assert_eq!(model.resolved_api_key(Some("env")), None);
    model.api_key_env = Some("KEY".to_string());
    assert_eq!(model.resolved_api_key(Some(" env ")).as_deref(), Some("env"));
    assert_eq!(model.resolved_api_key(Some(" ")), None);
    assert_eq!(model.resolved_api_key(None), None);
    model.api_key = Some(" own ".to_string());
    assert_eq!(model.resolved_api_key(Some("env")).as_deref(), Some("own"));
    model.api_key = Some(" ".to_string());
    assert_eq!(model.resolved_api_key(Some("env")).as_deref(), Some("env"));
}

#[test]
fn the_configuration_is_looked_for() {
    let some = |s: &str| Some(s.to_string());
    assert_eq!(config_path(some("/x"), some("/p")), "/x/richclip/labeld.toml");
    assert_eq!(config_path(None, some("/p")), "/p/labeld.toml");
    assert_eq!(config_path(None, None), "richclip-labeld.toml");
    assert_eq!(default_config_path(some("/x")), "/x/richclip/labeld.toml");
    assert!(matches!(config_source("/a", "/d", true), ConfigSource::Read));
    assert!(matches!(config_source("/d", "/d", false), ConfigSource::Defaults));
    let default = "/c/richclip/labeld.toml";
    for same in [
        "/c/richclip//labeld.toml",
        "//c/./richclip/labeld.toml/",
        "/c/richclip/labeld.toml/.",
    ] {
        assert!(matches!(config_source(same, default, false), ConfigSource::Defaults));
    }
    for other in ["c/richclip/labeld.toml", "/c/x/../richclip/labeld.toml", "/c/richclip"] {
        assert!(matches!(config_source(other, default, false), ConfigSource::Missing(_)));
    }
    assert!(matches!(config_source("./a", "a", false), ConfigSource::Missing(_)));
    assert!(matches!(config_source("./a/", ".//a", false), ConfigSource::Defaults));
    match config_source("/a", "/d", false) {
        ConfigSource::Missing(f) => assert_eq!(f.line(), "config file not found at \"/a\""),
        other => panic!("unexpected source {:?}", other),
    }
}
