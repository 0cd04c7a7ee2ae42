//! Process configuration data: command prefix, the optional word-cloud
//! worker settings, and the optional bot administrator.

use vstd::prelude::*;

verus! {

/// Marker naming the configuration's slot in a host's shared-state map.
pub struct GeneralAppConfigData;

/// Settings of the external word-cloud worker: where its interpreter and
/// exchange directories live, and how long to wait for an image.
pub struct WordCloudConfig {
    /// Path of the worker's interpreter.
    pub python_path: String,
    /// Path of the worker's virtual environment, if one is used.
    pub venv_path: Option<String>,
    /// Directory watched by the worker for request files.
    pub request_path: String,
    /// Directory where generated images appear.
    pub generated_image_path: String,
    /// How long to wait for an image, in seconds.
    pub timeout_secs: u64,
}

impl Default for WordCloudConfig {
    /// Everything under the current directory, requests in `in/`, images in
    /// `out/`, a two second wait.
    fn default() -> (r: Self)
        ensures
            r.python_path@ == "."@,
            r.venv_path matches Some(v) && v@ == "."@,
            r.request_path@ == "in/"@,
            r.generated_image_path@ == "out/"@,
            r.timeout_secs == 2,
    {
        Self {
            python_path: String::from_str("."),
            venv_path: Some(String::from_str(".")),
            request_path: String::from_str("in/"),
            generated_image_path: String::from_str("out/"),
            timeout_secs: 2,
        }
    }
}

/// The process configuration.
pub struct GeneralAppConfig {
    /// Command prefix the bot answers to.
    pub prefix: String,
    /// Word-cloud worker settings; absent when word clouds are disabled.
    pub wordcloud_config: Option<WordCloudConfig>,
    /// User identifier that receives feedback, if configured.
    pub bot_admin: Option<u64>,
}

impl Default for GeneralAppConfig {
    /// `!` prefix, word clouds on with their defaults, no administrator.
    fn default() -> (r: Self)
        ensures
            r.prefix@ == "!"@,
            r.wordcloud_config is Some,
            r.bot_admin is None,
    {
        Self {
            prefix: String::from_str("!"),
            wordcloud_config: Some(WordCloudConfig::default()),
            bot_admin: None,
        }
    }
}

impl GeneralAppConfig {
    /// True when word clouds are configured.
    pub fn wordcloud_enabled(&self) -> (r: bool)
        ensures
            r == (self.wordcloud_config is Some),
    {
        self.wordcloud_config.is_some()
    }
}

} // verus!
