//! The configuration of the labeller.

use crate::paths::{components, same_path};
use crate::store::table::Row;
use crate::text::{
    has_no_margin, is_blank, join2, law_blank_texts, law_trimming_leaves_the_core, quoted,
    quoted_text, same_text, trim, trimmed,
};
use vstd::prelude::*;

verus! {

// ---------------------------------------------------------------------------
// Failures
// ---------------------------------------------------------------------------

/// What went wrong, and why, where there is more to say.
#[derive(Debug)]
pub struct Failure {
    pub message: String,
    pub cause: Option<String>,
}

impl Failure {
    /// Exactly this message, and no cause.
    pub open spec fn says(self, message: Seq<char>) -> bool {
        self.message@ == message && self.cause is None
    }

    /// Exactly this message and this cause.
    pub open spec fn says_because(self, message: Seq<char>, cause: Seq<char>) -> bool {
        &&& self.message@ == message
        &&& self.cause matches Some(c) && c@ == cause
    }

    /// The message, with the cause behind a colon.
    pub open spec fn shown(self) -> Seq<char> {
        match self.cause {
            Some(c) => self.message@ + ": "@ + c@,
            None => self.message@,
        }
    }

    pub fn new(message: String) -> (r: Failure)
        ensures
            r.says(message@),
    {
        Failure { message, cause: None }
    }

    pub fn because(message: String, cause: String) -> (r: Failure)
        ensures
            r.says_because(message@, cause@),
    {
        Failure { message, cause: Some(cause) }
    }

    /// The failure in one line.
    pub fn line(&self) -> (r: String)
        ensures
            r@ == self.shown(),
    {
        match &self.cause {
            Some(c) => crate::text::join3(self.message.as_str(), ": ", c.as_str()),
            None => self.message.clone(),
        }
    }
}

// ---------------------------------------------------------------------------
// JSON values
// ---------------------------------------------------------------------------

/// A JSON value; a number is held as its text.
#[derive(Debug)]
pub enum Json {
    Null,
    Bool(bool),
    Number(String),
    Text(String),
    Array(Vec<Json>),
    Object(Vec<JsonEntry>),
}

/// One entry of a JSON object.
#[derive(Debug)]
pub struct JsonEntry {
    pub key: String,
    pub value: Json,
}

/// What a JSON value holds.
pub enum JsonView {
    Null,
    Bool(bool),
    Number(Seq<char>),
    Text(Seq<char>),
    Array(Seq<JsonView>),
    Object(Seq<(Seq<char>, JsonView)>),
}

impl Json {
    /// What the value holds.
    pub open spec fn view(self) -> JsonView
        decreases self,
    {
        match self {
            Json::Null => JsonView::Null,
            Json::Bool(b) => JsonView::Bool(b),
            Json::Number(n) => JsonView::Number(n@),
            Json::Text(t) => JsonView::Text(t@),
            Json::Array(list) => JsonView::Array(
                Seq::new(
                    list@.len(),
                    |i: int|
                        if 0 <= i < list@.len() {
                            list@[i].view()
                        } else {
                            JsonView::Null
                        },
                ),
            ),
            Json::Object(list) => JsonView::Object(
                Seq::new(
                    list@.len(),
                    |i: int|
                        if 0 <= i < list@.len() {
                            (list@[i].key@, list@[i].value.view())
                        } else {
                            (Seq::empty(), JsonView::Null)
                        },
                ),
            ),
        }
    }
}

/// The entries of an object, in order.
pub open spec fn entries(list: Seq<JsonEntry>) -> Seq<(Seq<char>, JsonView)> {
    list.map_values(|e: JsonEntry| (e.key@, e.value.view()))
}

impl Row for JsonEntry {
    type Key = Seq<char>;

    type Data = JsonView;

    open spec fn key(self) -> Seq<char> {
        self.key@
    }

    open spec fn data(self) -> JsonView {
        self.value.view()
    }
}

// ---------------------------------------------------------------------------
// Configuration
// ---------------------------------------------------------------------------

/// The fields of a chat-completion request that the labeller sets itself.
pub open spec fn is_reserved(key: Seq<char>) -> bool {
    key == "model"@ || key == "messages"@ || key == "temperature"@
}

/// Whether the labeller sets this field of a chat-completion request itself.
pub fn is_reserved_key(key: &str) -> (r: bool)
    ensures
        r == is_reserved(key@),
{
    same_text(key, "model") || same_text(key, "messages") || same_text(key, "temperature")
}

#[derive(Debug)]
pub struct ModelConfig {
    pub url: String,
    pub model: String,
    pub timeout_seconds: u64,
    pub api_key: Option<String>,
    pub api_key_env: Option<String>,
    pub extra_body: Vec<JsonEntry>,
}

#[derive(Debug)]
pub struct PromptConfig {
    pub label: String,
}

#[derive(Debug)]
pub struct Config {
    pub model: ModelConfig,
    pub prompt: PromptConfig,
}

impl Default for ModelConfig {
    fn default() -> (r: Self)
        ensures
            r.url@ == "http://127.0.0.1:11434/v1"@,
            r.model@ == "your-vision-model"@,
            r.timeout_seconds == 60,
            r.api_key is None,
            r.api_key_env is None,
            r.extra_body@.len() == 0,
    {
        ModelConfig {
            url: "http://127.0.0.1:11434/v1".to_owned(),
            model: "your-vision-model".to_owned(),
            timeout_seconds: 60,
            api_key: None,
            api_key_env: None,
            extra_body: Vec::new(),
        }
    }
}

impl Default for PromptConfig {
    fn default() -> (r: Self)
        ensures
            r.label@
                == "Return one short factual label for this clipboard image. Use plain text only, no quotes, no prefixes, and no trailing sentence punctuation."@,
    {
        PromptConfig {
            label: "Return one short factual label for this clipboard image. Use plain text only, no quotes, no prefixes, and no trailing sentence punctuation.".to_owned(),
        }
    }
}

/// The text of the error for a reserved field.
pub open spec fn reserved_message(key: Seq<char>) -> Seq<char> {
    "model.extra_body must not override reserved chat-completion field "@ + quoted_text(key)
}

/// The place of the first reserved field, or the number of fields.
pub open spec fn first_reserved(list: Seq<JsonEntry>) -> nat
    decreases list.len(),
{
    if list.len() == 0 || is_reserved(list[0].key@) {
        0
    } else {
        1 + first_reserved(list.drop_first())
    }
}

/// The outcome of the check of the extra fields.
pub open spec fn extra_body_outcome(
    list: Seq<JsonEntry>,
    r: std::result::Result<(), Failure>,
) -> bool {
    let at = first_reserved(list) as int;
    if at < list.len() {
        r matches Err(f) && f.says(reserved_message(list[at].key@))
    } else {
        r is Ok
    }
}

/// A trimmed text, or nothing where that is empty.
pub open spec fn trimmed_text(s: Option<Seq<char>>) -> Option<Seq<char>> {
    match s {
        Some(t) => if trimmed(t).len() > 0 {
            Some(trimmed(t))
        } else {
            None
        },
        None => None,
    }
}

fn trimmed_owned(s: Option<&str>) -> (r: Option<String>)
    ensures
        match s {
            Some(t) => match r {
                Some(k) => trimmed_text(Some(t@)) == Some(k@),
                None => trimmed_text(Some(t@)) is None,
            },
            None => r is None,
        },
{
    match s {
        Some(t) => {
            let k = trim(t);
            if k.is_empty() {
                None
            } else {
                Some(k.to_owned())
            }
        },
        None => None,
    }
}

impl ModelConfig {
    /// The key to send: the configured one, else the one that the named
    /// environment variable holds; both trimmed, and an empty one counts as
    /// none.
    pub open spec fn api_key_in_force(self, env_value: Option<Seq<char>>) -> Option<Seq<char>> {
        let own = trimmed_text(
            match self.api_key {
                Some(k) => Some(k@),
                None => None,
            },
        );
        if own is Some {
            own
        } else if self.api_key_env is Some {
            trimmed_text(env_value)
        } else {
            None
        }
    }

    /// The key to send, given the value of the environment variable that
    /// `api_key_env` names, if it is set.
    pub fn resolved_api_key(&self, env_value: Option<&str>) -> (r: Option<String>)
        ensures
            match r {
                Some(k) => self.api_key_in_force(
                    match env_value {
                        Some(v) => Some(v@),
                        None => None,
                    },
                ) == Some(k@),
                None => self.api_key_in_force(
                    match env_value {
                        Some(v) => Some(v@),
                        None => None,
                    },
                ) is None,
            },
    {
        let own = match &self.api_key {
            Some(k) => trimmed_owned(Some(k.as_str())),
            None => None,
        };
        if own.is_some() {
            return own;
        }
        if self.api_key_env.is_some() {
            trimmed_owned(env_value)
        } else {
            None
        }
    }

    /// Refuse extra fields that the labeller sets itself.
    pub fn validate_extra_body(&self) -> (r: std::result::Result<(), Failure>)
        ensures
            extra_body_outcome(self.extra_body@, r),
    {
        let ghost list = self.extra_body@;
        let mut i: usize = 0;
        assert(list.skip(0) =~= list);
        while i < self.extra_body.len()
            invariant
                i <= self.extra_body@.len(),
                list == self.extra_body@,
                first_reserved(list) == i + first_reserved(list.skip(i as int)),
            decreases self.extra_body@.len() - i,
        {
            assert(list.skip(i as int)[0] == list[i as int]);
            assert(list.skip(i as int).drop_first() =~= list.skip(i + 1));
            if is_reserved_key(self.extra_body[i].key.as_str()) {
                let q = quoted(self.extra_body[i].key.as_str());
                return Err(
                    Failure::new(
                        join2(
                            "model.extra_body must not override reserved chat-completion field ",
                            q.as_str(),
                        ),
                    ),
                );
            }
            i += 1;
        }
        Ok(())
    }
}

// ---------------------------------------------------------------------------
// URLs
// ---------------------------------------------------------------------------

/// A URL, as far as the labeller looks at it.
#[derive(Debug)]
pub struct UrlParts {
    /// The whole URL in its normal form.
    pub href: String,
    pub scheme: String,
    pub host: Option<String>,
    pub port: Option<u16>,
    pub path: String,
}

/// What a [`UrlParts`] holds.
pub struct UrlView {
    pub href: Seq<char>,
    pub scheme: Seq<char>,
    pub host: Option<Seq<char>>,
    pub port: Option<u16>,
    pub path: Seq<char>,
}

impl UrlView {
    /// The URL is one of HTTP.
    pub open spec fn is_web(self) -> bool {
        self.scheme == "http"@ || self.scheme == "https"@
    }
}

impl View for UrlParts {
    type V = UrlView;

    open spec fn view(&self) -> UrlView {
        UrlView {
            href: self.href@,
            scheme: self.scheme@,
            host: crate::paths::text_of(self.host),
            port: self.port,
            path: self.path@,
        }
    }
}

/// What `Url::parse` makes of a text: the URL, or the text of the error.
pub uninterp spec fn parsed_url(s: Seq<char>) -> std::result::Result<UrlView, Seq<char>>;

/// `Url::parse`, with `as_str`, `scheme`, `host_str`, `port` and `path`: a
/// function of the text alone. The normal form of a URL of HTTP stands for the
/// same URL.
#[verifier::external_body]
pub(crate) fn parse_url(s: &str) -> (r: std::result::Result<UrlParts, String>)
    ensures
        match r {
            Ok(u) => parsed_url(s@) == Ok::<UrlView, Seq<char>>(u@),
            Err(e) => parsed_url(s@) == Err::<UrlView, Seq<char>>(e@),
        },
        r matches Ok(u) ==> (u@.is_web() ==> parsed_url(u@.href) == Ok::<UrlView, Seq<char>>(u@)),
{
    let u = reqwest::Url::parse(s).map_err(|e| e.to_string())?;
    Ok(
        UrlParts {
            href: u.as_str().to_owned(),
            scheme: u.scheme().to_owned(),
            host: u.host_str().map(|h| h.to_owned()),
            port: u.port(),
            path: u.path().to_owned(),
        },
    )
}

impl Config {
    /// The outcome of the check of a configuration, given what its URL is.
    pub open spec fn validate_outcome(
        self,
        url: std::result::Result<UrlView, Seq<char>>,
        r: std::result::Result<(), Failure>,
    ) -> bool {
        if trimmed(self.model.model@).len() == 0 {
            r matches Err(f) && f.says("model.model must not be empty"@)
        } else if self.model.timeout_seconds == 0 {
            r matches Err(f) && f.says("model.timeout_seconds must be greater than 0"@)
        } else if trimmed(self.prompt.label@).len() == 0 {
            r matches Err(f) && f.says("prompt.label must not be empty"@)
        } else {
            match url {
                Err(e) => r matches Err(f) && f.says_because(
                    "invalid model.url: "@ + self.model.url@,
                    e,
                ),
                Ok(u) => if !u.is_web() {
                    r matches Err(f) && f.says(
                        "model.url must use http or https, got "@ + u.scheme,
                    )
                } else {
                    extra_body_outcome(self.model.extra_body@, r)
                },
            }
        }
    }

    /// Check a configuration.
    pub fn validate(&self) -> (r: std::result::Result<(), Failure>)
        ensures
            self.validate_outcome(parsed_url(self.model.url@), r),
    {
        let url = parse_url(self.model.url.as_str());
        self.validate_with(&url)
    }

    /// Check a configuration whose URL has been parsed.
    pub fn validate_with(&self, url: &std::result::Result<UrlParts, String>) -> (r:
        std::result::Result<(), Failure>)
        ensures
            self.validate_outcome(
                match url {
                    Ok(u) => Ok(u@),
                    Err(e) => Err(e@),
                },
                r,
            ),
    {
        if trim(self.model.model.as_str()).is_empty() {
            return Err(Failure::new("model.model must not be empty".to_owned()));
        }
        if self.model.timeout_seconds == 0 {
            return Err(Failure::new("model.timeout_seconds must be greater than 0".to_owned()));
        }
        if trim(self.prompt.label.as_str()).is_empty() {
            return Err(Failure::new("prompt.label must not be empty".to_owned()));
        }
        match url {
            Err(e) => Err(
                Failure::because(join2("invalid model.url: ", self.model.url.as_str()), e.clone()),
            ),
            Ok(u) => {
                if !same_text(u.scheme.as_str(), "http") && !same_text(u.scheme.as_str(), "https") {
                    return Err(
                        Failure::new(
                            join2("model.url must use http or https, got ", u.scheme.as_str()),
                        ),
                    );
                }
                self.model.validate_extra_body()
            },
        }
    }
}

impl Default for Config {
    fn default() -> (r: Self)
        ensures
            r.model.url@ == "http://127.0.0.1:11434/v1"@,
            r.model.model@ == "your-vision-model"@,
            r.model.timeout_seconds == 60,
            r.model.api_key is None,
            r.model.api_key_env is None,
            r.model.extra_body@.len() == 0,
            r.prompt.label@
                == "Return one short factual label for this clipboard image. Use plain text only, no quotes, no prefixes, and no trailing sentence punctuation."@,
    {
        Config { model: ModelConfig::default(), prompt: PromptConfig::default() }
    }
}

// ---------------------------------------------------------------------------
// Where the configuration is
// ---------------------------------------------------------------------------

/// The default place of the configuration, given the two directories that it
/// can be in.
pub open spec fn config_path_of(
    xdg_config_home: Option<Seq<char>>,
    project_config_dir: Option<Seq<char>>,
) -> Seq<char> {
    match (xdg_config_home, project_config_dir) {
        (Some(dir), _) => crate::paths::joined_path(
            crate::paths::joined_path(dir, "richclip"@),
            "labeld.toml"@,
        ),
        (None, Some(dir)) => crate::paths::joined_path(dir, "labeld.toml"@),
        (None, None) => "richclip-labeld.toml"@,
    }
}

/// The default place of the configuration, given the two directories that it
/// can be in.
pub fn config_path(xdg_config_home: Option<String>, project_config_dir: Option<String>) -> (r:
    String)
    ensures
        r@ == config_path_of(
            crate::paths::text_of(xdg_config_home),
            crate::paths::text_of(project_config_dir),
        ),
{
    match xdg_config_home {
        Some(dir) => {
            let base = crate::paths::join_path(dir.as_str(), "richclip");
            crate::paths::join_path(base.as_str(), "labeld.toml")
        },
        None => match project_config_dir {
            Some(dir) => crate::paths::join_path(dir.as_str(), "labeld.toml"),
            None => "richclip-labeld.toml".to_owned(),
        },
    }
}

/// `ProjectDirs::from` and `config_dir`: the configuration directory of the
/// project for this user; none where there is no home directory or where its
/// name is not Unicode. The project's name is put behind a directory that the
/// environment decides; which one that is, is not stated.
#[verifier::external_body]
fn project_config_dir() -> (r: Option<String>)
    ensures
        r matches Some(dir) ==> crate::paths::is_project_dir(dir@),
{
    directories::ProjectDirs::from("", "", "richclip").and_then(
        |d| d.config_dir().to_str().map(|s| s.to_owned()),
    )
}

/// A directory of the project, or none.
pub open spec fn may_be_project_dir(dir: Option<Seq<char>>) -> bool {
    dir matches Some(d) ==> crate::paths::is_project_dir(d)
}

/// Return the default place of the configuration: `richclip/labeld.toml` in
/// `xdg_config_home` (`$XDG_CONFIG_HOME`), else `labeld.toml` in the project's
/// configuration directory, else `richclip-labeld.toml`.
pub fn default_config_path(xdg_config_home: Option<String>) -> (r: String)
    ensures
        exists|dir: Option<Seq<char>>|
            may_be_project_dir(dir) && r@ == #[trigger] config_path_of(
                crate::paths::text_of(xdg_config_home),
                dir,
            ),
{
    let dir = project_config_dir();
    let ghost found = crate::paths::text_of(dir);
    assert(may_be_project_dir(found));
    config_path(xdg_config_home, dir)
}

/// What is done about a configuration file.
#[derive(Debug)]
pub enum ConfigSource {
    /// Read the file.
    Read,
    /// Take the defaults.
    Defaults,
    /// Fail: the file that was asked for is not there.
    Missing(Failure),
}

/// Where the configuration comes from: the file where it exists, the defaults
/// where only the default place was looked at.
pub fn config_source(path: &str, default_path: &str, exists_on_disk: bool) -> (r: ConfigSource)
    ensures
        if exists_on_disk {
            r is Read
        } else if components(path@) == components(default_path@) {
            r is Defaults
        } else {
            r matches ConfigSource::Missing(f) && f.says(
                "config file not found at "@ + quoted_text(path@),
            )
        },
        r is Read <==> exists_on_disk,
        path@ == default_path@ ==> !(r is Missing),
{
    if exists_on_disk {
        ConfigSource::Read
    } else if same_path(path, default_path) {
        ConfigSource::Defaults
    } else {
        let q = quoted(path);
        ConfigSource::Missing(Failure::new(join2("config file not found at ", q.as_str())))
    }
}

// ---------------------------------------------------------------------------
// What holds of configurations
// ---------------------------------------------------------------------------

pub(crate) proof fn lemma_first_reserved(list: Seq<JsonEntry>)
    ensures
        first_reserved(list) <= list.len(),
        forall|j: int| 0 <= j < first_reserved(list) ==> !is_reserved((#[trigger] list[j]).key@),
        first_reserved(list) < list.len() ==> is_reserved(list[first_reserved(list) as int].key@),
    decreases list.len(),
{
    if list.len() > 0 && !is_reserved(list[0].key@) {
        let rest = list.drop_first();
        lemma_first_reserved(rest);
        let n = first_reserved(rest) as int;
        assert forall|j: int| 0 <= j < first_reserved(list) implies !is_reserved(
            (#[trigger] list[j]).key@,
        ) by {
            if j > 0 {
                assert(rest[j - 1] == list[j]);
            }
        }
        if n < rest.len() {
            assert(rest[n] == list[n + 1]);
        }
    }
}

/// Extra fields are refused exactly where one of them is named `model`,
/// `messages` or `temperature`.
pub proof fn law_reserved_fields_are_refused(
    extra: Seq<JsonEntry>,
    r: std::result::Result<(), Failure>,
)
    requires
        extra_body_outcome(extra, r),
    ensures
        r is Err <==> exists|i: int|
            0 <= i < extra.len() && {
                let key = (#[trigger] extra[i]).key@;
                key == "model"@ || key == "messages"@ || key == "temperature"@
            },
{
    lemma_first_reserved(extra);
    let at = first_reserved(extra) as int;
    if at < extra.len() {
        assert(is_reserved(extra[at].key@));
    }
}

/// A configuration is accepted exactly where neither the model nor the prompt is
/// blank, the time limit is not zero, the URL is one of HTTP or HTTPS, and no
/// extra field is one that the labeller sets itself.
pub proof fn law_accepted_configurations(
    config: Config,
    url: std::result::Result<UrlView, Seq<char>>,
    r: std::result::Result<(), Failure>,
)
    requires
        config.validate_outcome(url, r),
    ensures
        r is Ok <==> {
            &&& !is_blank(config.model.model@)
            &&& config.model.timeout_seconds > 0
            &&& !is_blank(config.prompt.label@)
            &&& url matches Ok(u) && (u.scheme == "http"@ || u.scheme == "https"@)
            &&& forall|i: int|
                0 <= i < config.model.extra_body@.len() ==> {
                    let key = (#[trigger] config.model.extra_body@[i]).key@;
                    key != "model"@ && key != "messages"@ && key != "temperature"@
                }
        },
{
    law_blank_texts(config.model.model@);
    law_blank_texts(config.prompt.label@);
    if extra_body_outcome(config.model.extra_body@, r) {
        law_reserved_fields_are_refused(config.model.extra_body@, r);
    }
}

/// The configured key is sent, without the white space around it, whatever the
/// environment holds; where it is missing or blank, the one in the environment
/// variable that is named is sent in the same way, and none where no variable is
/// named.
pub proof fn law_key_in_force(
    config: ModelConfig,
    env_value: Option<Seq<char>>,
    lead: Seq<char>,
    core: Seq<char>,
    trail: Seq<char>,
)
    requires
        is_blank(lead),
        is_blank(trail),
        has_no_margin(core),
        core.len() > 0,
    ensures
        config.api_key is Some && config.api_key->0@ == lead + core + trail
            ==> config.api_key_in_force(env_value) == Some(core),
        (config.api_key is Some ==> is_blank(config.api_key->0@)) && config.api_key_env is Some
            ==> config.api_key_in_force(Some(lead + core + trail)) == Some(core)
            && config.api_key_in_force(None) is None,
        (config.api_key is Some ==> is_blank(config.api_key->0@)) && config.api_key_env is None
            ==> config.api_key_in_force(env_value) is None,
        config.api_key_in_force(env_value) matches Some(key) ==> key.len() > 0,
{
    law_trimming_leaves_the_core(lead, core, trail);
    if config.api_key is Some {
        law_blank_texts(config.api_key->0@);
    }
}

/// The configuration lies at `richclip/labeld.toml` in the user's configuration
/// directory, else at `labeld.toml` in the project's, else at
/// `richclip-labeld.toml`.
pub proof fn law_place_of_the_configuration(dir: Seq<char>, project: Option<Seq<char>>)
    requires
        dir.len() > 0,
        dir[dir.len() - 1] != '/',
    ensures
        config_path_of(Some(dir), project) == dir + "/richclip/labeld.toml"@,
        config_path_of(None, Some(dir)) == dir + "/labeld.toml"@,
        config_path_of(None, None) == "richclip-labeld.toml"@,
{
    reveal_strlit("richclip");
    reveal_strlit("labeld.toml");
    reveal_strlit("/labeld.toml");
    reveal_strlit("/richclip/labeld.toml");
    let below = dir + seq!['/'] + "richclip"@;
    assert(below.last() == 'p');
    crate::paths::law_joined_path(dir, "richclip"@);
    crate::paths::law_joined_path(dir, "labeld.toml"@);
    crate::paths::law_joined_path(below, "labeld.toml"@);
    assert("/labeld.toml"@ =~= seq!['/'] + "labeld.toml"@);
    assert("/richclip/labeld.toml"@ =~= seq!['/'] + "richclip"@ + seq!['/'] + "labeld.toml"@);
    assert(below + seq!['/'] + "labeld.toml"@ =~= dir + "/richclip/labeld.toml"@);
    assert(dir + seq!['/'] + "labeld.toml"@ =~= dir + "/labeld.toml"@);
}

} // verus!
