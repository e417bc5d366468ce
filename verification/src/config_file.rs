//! The configuration file.

use serde_yaml::Value;
use vstd::prelude::*;
use vstd::string::*;

use crate::sim_config::error::ConfigError;
use crate::text::{begins_with, same_text, text_begins_with};

verus! {

/// A value of the `serde_yaml` crate. Nothing is known of what it holds but what the names below
/// say.
#[verifier::external_type_specification]
#[verifier::external_body]
pub struct ExValue(Value);

/// What `serde_yaml::from_reader` makes of a file: a value, or what it says to a file that is no
/// YAML.
pub uninterp spec fn yaml_value(bytes: Seq<u8>) -> Result<Value, Seq<char>>;

/// What `Value::apply_merge` makes of a value: the value with its `<<` keys merged, or what it says
/// to a `<<` key that cannot be merged.
pub uninterp spec fn merged_value(value: Value) -> Result<Value, Seq<char>>;

/// The entries of a value that is a mapping, in their order.
pub uninterp spec fn entries_of(value: Value) -> Option<Seq<(Value, Value)>>;

/// The text of a value that is a string.
pub uninterp spec fn text_of(value: Value) -> Option<Seq<char>>;

/// Parses a file through `serde_yaml::from_reader`. Claimed: the outcome, and the text of a failure,
/// depend on the bytes alone.
#[verifier::external_body]
fn parse_yaml(bytes: &[u8]) -> (parsed: Result<Value, String>)
    ensures
        match (parsed, yaml_value(bytes@)) {
            (Ok(value), Ok(named)) => value == named,
            (Err(text), Err(named)) => text@ == named,
            _ => false,
        },
{
    match serde_yaml::from_reader(bytes) {
        Ok(value) => Ok(value),
        Err(e) => Err(e.to_string()),
    }
}

/// Merges `<<` keys through `Value::apply_merge`. Claimed: the outcome, and the text of a failure,
/// depend on the value alone. Nothing is claimed of a value that could not be merged.
#[verifier::external_body]
fn merge_keys(value: &mut Value) -> (merged: Result<(), String>)
    ensures
        match (merged, merged_value(*old(value))) {
            (Ok(()), Ok(named)) => *final(value) == named,
            (Err(text), Err(named)) => text@ == named,
            _ => false,
        },
{
    match value.apply_merge() {
        Ok(()) => Ok(()),
        Err(e) => Err(e.to_string()),
    }
}

/// Reads a value that is of the variant `Value::String`. Claimed: the result is its text, and
/// there is none for another variant.
#[verifier::external_body]
fn key_text(key: &Value) -> (text: Option<&str>)
    ensures
        match (text, text_of(*key)) {
            (Some(t), Some(named)) => t@ == named,
            (None, None) => true,
            _ => false,
        },
{
    match key {
        Value::String(text) => Some(text.as_str()),
        _ => None,
    }
}

/// Drops entries of a mapping through `Mapping::retain`. Claimed: of a value of the variant
/// `Value::Mapping` those entries stay whose key is no extension key, in their order, and a value
/// of another variant stays as it is.
#[verifier::external_body]
fn retain_entries(value: &mut Value)
    ensures
        match entries_of(*old(value)) {
            Some(entries) => entries_of(*final(value)) == Some(without_extensions(entries)),
            None => *final(value) == *old(value),
        },
{
    match value {
        Value::Mapping(mapping) => mapping.retain(|key, _value| is_kept(key)),
        _ => {},
    }
}

/// Whether a top-level key marks an extension, which the simulator does not read.
pub open spec fn is_extension(key: Seq<char>) -> bool {
    begins_with(key, "x-"@)
}

/// Whether a top-level key marks an extension, which the simulator does not read.
pub fn is_extension_key(key: &str) -> (extension: bool)
    ensures
        extension == is_extension(key@),
{
    text_begins_with(key, "x-")
}

/// Whether an entry with a key is kept. Only texts can mark extensions.
pub open spec fn keeps_key(key: Value) -> bool {
    match text_of(key) {
        Some(text) => !is_extension(text),
        None => true,
    }
}

fn is_kept(key: &Value) -> (kept: bool)
    ensures
        kept == keeps_key(*key),
{
    match key_text(key) {
        Some(text) => !is_extension_key(text),
        None => true,
    }
}

/// The entries that are no extensions.
pub open spec fn without_extensions(entries: Seq<(Value, Value)>) -> Seq<(Value, Value)> {
    entries.filter(|entry: (Value, Value)| keeps_key(entry.0))
}

/// Whether a value is another without its extensions.
pub open spec fn drops_extensions(kept: Value, value: Value) -> bool {
    match entries_of(value) {
        Some(entries) => entries_of(kept) == Some(without_extensions(entries)),
        None => kept == value,
    }
}

/// Whether a value, or a failure, is what a configuration file comes to. In extended YAML, `<<`
/// keys are merged before extensions are dropped.
pub open spec fn is_loaded(
    loaded: Result<Value, ConfigError>,
    content: Result<Seq<u8>, Seq<char>>,
    extended_yaml: bool,
) -> bool {
    match content {
        Err(cause) => loaded matches Err(e) && e@ == seq!["Could not open config file"@, cause],
        Ok(bytes) => match yaml_value(bytes) {
            Err(cause) => loaded matches Err(e) && e@ == seq![
                "Could not parse configuration file as yaml"@,
                cause,
            ],
            Ok(value) => if !extended_yaml {
                loaded matches Ok(v) && v == value
            } else {
                match merged_value(value) {
                    Err(cause) => loaded matches Err(e) && e@ == seq![
                        "Could not merge '<<' keys"@,
                        cause,
                    ],
                    Ok(merged) => loaded matches Ok(v) && drops_extensions(v, merged),
                }
            },
        },
    }
}

/// What a file holds, or why it could not be read.
pub open spec fn content_model(content: Result<Vec<u8>, String>) -> Result<Seq<u8>, Seq<char>> {
    match content {
        Ok(bytes) => Ok(bytes@),
        Err(cause) => Err(cause@),
    }
}

fn caused(message: &str, cause: String) -> (error: ConfigError)
    ensures
        error@ == seq![message@, cause@],
{
    let ghost said = cause@;
    let error = ConfigError::new(cause).context(message.to_owned());
    assert(error@ =~= seq![message@, said]);
    error
}

/// The value of a configuration file, given what reading it gave.
pub fn load_config_value(content: Result<Vec<u8>, String>, extended_yaml: bool) -> (loaded: Result<
    Value,
    ConfigError,
>)
    ensures
        is_loaded(loaded, content_model(content), extended_yaml),
{
    let bytes = match content {
        Ok(bytes) => bytes,
        Err(cause) => {
            return Err(caused("Could not open config file", cause));
        },
    };
    let mut value = match parse_yaml(bytes.as_slice()) {
        Ok(value) => value,
        Err(cause) => {
            return Err(caused("Could not parse configuration file as yaml", cause));
        },
    };
    if extended_yaml {
        if let Err(cause) = merge_keys(&mut value) {
            return Err(caused("Could not merge '<<' keys", cause));
        }
        retain_entries(&mut value);
    }
    Ok(value)
}

/// No entry of a loaded extended file is an extension, and every other entry of the merged file is
/// there.
pub proof fn law_extensions_are_dropped(entries: Seq<(Value, Value)>, entry: (Value, Value))
    ensures
        without_extensions(entries).contains(entry) <==> entries.contains(entry) && keeps_key(
            entry.0,
        ),
    decreases entries.len(),
{
    reveal(Seq::filter);
    if entries.len() > 0 {
        let shorter = entries.drop_last();
        law_extensions_are_dropped(shorter, entry);
        assert(entries.contains(entry) <==> shorter.contains(entry) || entries.last() == entry) by {
            if shorter.contains(entry) {
                let i = shorter.index_of(entry);
                assert(entries[i] == entry);
            }
            if entries.contains(entry) {
                let i = entries.index_of(entry);
                if i < shorter.len() {
                    assert(shorter[i] == entry);
                }
            }
            assert(entries[entries.len() - 1] == entries.last());
        }
        let kept = without_extensions(shorter);
        if keeps_key(entries.last().0) {
            let longer = kept.push(entries.last());
            assert(longer.contains(entry) <==> kept.contains(entry) || entries.last() == entry) by {
                if kept.contains(entry) {
                    let i = kept.index_of(entry);
                    assert(longer[i] == entry);
                }
                if longer.contains(entry) {
                    let i = longer.index_of(entry);
                    if i < kept.len() {
                        assert(kept[i] == entry);
                    }
                }
                assert(longer[kept.len() as int] == entries.last());
            }
        }
    }
}

/// The file that a configured name stands for: `-` is the standard input.
pub fn config_filename(name: &str) -> (filename: String)
    ensures
        filename@ == (if name@ == "-"@ {
            "/dev/stdin"@
        } else {
            name@
        }),
{
    if same_text(name, "-") {
        "/dev/stdin".to_owned()
    } else {
        name.to_owned()
    }
}

/// A key is left out exactly where it is a text that begins with the letter x and a hyphen.
pub proof fn law_extension_keys(key: Value)
    ensures
        !keeps_key(key) <==> (text_of(key) matches Some(text) && text.len() >= 2 && text[0] == 'x'
            && text[1] == '-'),
{
    reveal_strlit("x-");
    if let Some(text) = text_of(key) {
        if text.len() >= 2 {
            let front = text.take(2);
            assert(front[0] == text[0] && front[1] == text[1]);
            if text[0] == 'x' && text[1] == '-' {
                assert(front =~= "x-"@);
            }
        }
    }
}

/// A file without extended syntax is loaded as it stands, one with it is merged and then loses its
/// extensions, and nothing else is loaded.
pub proof fn law_loaded_values(
    loaded: Result<Value, ConfigError>,
    content: Result<Seq<u8>, Seq<char>>,
    extended_yaml: bool,
)
    requires
        is_loaded(loaded, content, extended_yaml),
    ensures
        loaded is Ok ==> content is Ok && yaml_value(content->Ok_0) is Ok,
        loaded is Ok && !extended_yaml ==> Ok::<Value, Seq<char>>(loaded->Ok_0) == yaml_value(
            content->Ok_0,
        ),
        loaded is Ok && extended_yaml ==> merged_value(yaml_value(content->Ok_0)->Ok_0) is Ok && ({
            let merged = merged_value(yaml_value(content->Ok_0)->Ok_0)->Ok_0;
            &&& entries_of(merged) is None ==> loaded->Ok_0 == merged
            &&& entries_of(merged) matches Some(entries) ==> entries_of(loaded->Ok_0) matches Some(
                kept,
            ) && kept == entries.filter(|entry: (Value, Value)| keeps_key(entry.0))
        }),
        loaded is Err ==> content is Err || yaml_value(content->Ok_0) is Err || (extended_yaml
            && merged_value(yaml_value(content->Ok_0)->Ok_0) is Err),
{
}

} // verus!
