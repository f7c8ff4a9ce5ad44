//! The persisted settings: watched folders, the Lemonade URL and the chat model, and
//! where the settings and the index live under the per-user configuration directory.
use crate::rag::DEFAULT_CHAT_MODEL;
use std::sync::Mutex;
use crate::text::ends_with_seq;
use vstd::prelude::*;
use vstd::string::*;

verus! {

/// The settings saved between runs.
#[derive(Debug, Clone)]
pub struct Config {
    pub folders: Vec<String>,
    pub lemonade_url: String,
    /// The generation model answers are produced with.
    pub chat_model: String,
}

/// The Lemonade URL used when none is configured.
pub open spec fn default_url_text() -> Seq<char> {
    "http://localhost:13305/v1"@
}

/// The Lemonade URL used when none is configured.
pub fn default_lemonade_url() -> (r: String)
    ensures
        r@ == default_url_text(),
{
    "http://localhost:13305/v1".to_owned()
}

/// The chat model used when none is configured: [`DEFAULT_CHAT_MODEL`].
pub fn default_chat_model() -> (r: String)
    ensures
        r@ == DEFAULT_CHAT_MODEL@,
{
    DEFAULT_CHAT_MODEL.to_owned()
}

impl Default for Config {
    /// No folders, the default URL and the default chat model.
    fn default() -> (r: Self)
        ensures
            r.folders@.len() == 0,
            r.lemonade_url@ == default_url_text(),
            r.chat_model@ == DEFAULT_CHAT_MODEL@,
    {
        Config {
            folders: Vec::new(),
            lemonade_url: default_lemonade_url(),
            chat_model: default_chat_model(),
        }
    }
}

/// `std::sync::Mutex`, held as an opaque value.
#[verifier::external_type_specification]
#[verifier::external_body]
#[verifier::reject_recursive_types(T)]
pub struct ExMutex<T: ?Sized>(Mutex<T>);

/// The settings shared between the commands of a running app.
pub struct ConfigState(pub Mutex<Config>);

/// `base` joined with the relative path `name`, as `Path::join` builds it for the
/// platform the crate is built for.
pub uninterp spec fn path_joined(base: Seq<char>, name: Seq<char>) -> Seq<char>;

/// A single relative path component with no separator, drive mark or dot-only name.
pub open spec fn plain_file_name(name: Seq<char>) -> bool {
    &&& name.len() > 0
    &&& forall|i: int| 0 <= i < name.len() ==> #[trigger] name[i] != '/' && name[i] != '\\' && name[i] != ':'
    &&& name != seq!['.']
    &&& name != seq!['.', '.']
}

/// Calls `std::path::Path::join` on `base` and a plain file `name` and reads the result
/// back as text; both are UTF-8 already, so the reading loses nothing. The joined text
/// is named; of it is claimed only that it ends with `name`, which `join` adjoins as
/// the last component. Which separator is used, whether one is added, and how a
/// verbatim Windows base is normalised are not stated.
#[verifier::external_body]
fn join_path(base: &str, name: &str) -> (r: String)
    requires
        plain_file_name(name@),
    ensures
        r@ == path_joined(base@, name@),
        ends_with_seq(r@, name@),
{
    std::path::Path::new(base).join(name).to_string_lossy().into_owned()
}

proof fn lemma_plain_names(a: &str, b: &str, c: &str)
    requires
        a == "lemonade-context-engine",
        b == "config.json",
        c == "index.bin",
    ensures
        plain_file_name(a@),
        plain_file_name(b@),
        plain_file_name(c@),
{
    reveal_strlit("lemonade-context-engine");
    reveal_strlit("config.json");
    reveal_strlit("index.bin");
    assert(a@.len() == 23);
    assert(b@.len() == 11);
    assert(c@.len() == 9);
    assert(a@ != seq!['.']);
    assert(a@ != seq!['.', '.']);
    assert(b@ != seq!['.']);
    assert(b@ != seq!['.', '.']);
    assert(c@ != seq!['.']);
    assert(c@ != seq!['.', '.']);
}

/// The directory of this app's files under the per-user configuration directory
/// `base`.
pub fn config_dir_under(base: &str) -> (r: String)
    ensures
        r@ == path_joined(base@, "lemonade-context-engine"@),
        ends_with_seq(r@, "lemonade-context-engine"@),
{
    let name = "lemonade-context-engine";
    proof {
        lemma_plain_names(name, "config.json", "index.bin");
    }
    join_path(base, name)
}

/// Where the settings are saved, in the app's directory `config_dir`.
pub fn config_path(config_dir: &str) -> (r: String)
    ensures
        r@ == path_joined(config_dir@, "config.json"@),
        ends_with_seq(r@, "config.json"@),
{
    let name = "config.json";
    proof {
        lemma_plain_names("lemonade-context-engine", name, "index.bin");
    }
    join_path(config_dir, name)
}

/// Where the index is saved, in the app's directory `config_dir`.
pub fn index_path(config_dir: &str) -> (r: String)
    ensures
        r@ == path_joined(config_dir@, "index.bin"@),
        ends_with_seq(r@, "index.bin"@),
{
    let name = "index.bin";
    proof {
        lemma_plain_names("lemonade-context-engine", "config.json", name);
    }
    join_path(config_dir, name)
}

/// The index never lands on the settings file: a path ending in `index.bin`, as every
/// [`index_path`] does, differs from one ending in `config.json`, as every
/// [`config_path`] does.
pub proof fn lemma_index_path_is_not_config_path(index: Seq<char>, settings: Seq<char>)
    requires
        ends_with_seq(index, "index.bin"@),
        ends_with_seq(settings, "config.json"@),
    ensures
        index != settings,
{
    reveal_strlit("index.bin");
    reveal_strlit("config.json");
    if index == settings {
        let n = index.len();
        assert(index.subrange(n - 9, n as int)[0] == index[n - 9]);
        assert(settings.subrange(n - 11, n as int)[2] == settings[n - 9]);
        assert("index.bin"@[0] == 'i');
        assert("config.json"@[2] == 'n');
    }
}

} // verus!
