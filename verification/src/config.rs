//! The configuration of the synchroniser and the decoding of its trust anchor.

use vstd::prelude::*;
use vstd::string::*;

verus! {

/// One upstream that reports records, and the DNS domain its records live
/// under.
#[derive(Debug, PartialEq)]
pub struct ExternalSource {
    pub url: String,
    pub domain_name: String,
    pub source_name: String,
}

/// The mathematical value of an [`ExternalSource`].
pub struct ExternalSourceView {
    pub url: Seq<char>,
    pub domain_name: Seq<char>,
    pub source_name: Seq<char>,
}

impl View for ExternalSource {
    type V = ExternalSourceView;

    open spec fn view(&self) -> ExternalSourceView {
        ExternalSourceView {
            url: self.url@,
            domain_name: self.domain_name@,
            source_name: self.source_name@,
        }
    }
}

impl Clone for ExternalSource {
    fn clone(&self) -> (copy: ExternalSource)
        ensures
            copy@ == self@,
    {
        ExternalSource {
            url: self.url.clone(),
            domain_name: self.domain_name.clone(),
            source_name: self.source_name.clone(),
        }
    }
}

/// The views of a list of sources, in order.
pub open spec fn sources_view(sources: Seq<ExternalSource>) -> Seq<ExternalSourceView> {
    sources.map_values(|source: ExternalSource| source@)
}

/// The text that describes a source: its three fields, one per line.
pub open spec fn source_description(source: ExternalSourceView) -> Seq<char> {
    "URL: "@ + source.url + "\nDomain Name: "@ + source.domain_name + "\nSource Name: "@
        + source.source_name + "\n"@
}

impl ExternalSource {
    /// Describes this source in three lines.
    pub fn to_display_string(&self) -> (text: String)
        ensures
            text@ == source_description(self@),
    {
        let mut text = String::from_str("URL: ");
        text.append(self.url.as_str());
        text.append("\nDomain Name: ");
        text.append(self.domain_name.as_str());
        text.append("\nSource Name: ");
        text.append(self.source_name.as_str());
        text.append("\n");
        text
    }
}

/// Copies a list of sources.
pub fn clone_sources(sources: &Vec<ExternalSource>) -> (copy: Vec<ExternalSource>)
    ensures
        sources_view(copy@) == sources_view(sources@),
{
    let mut copy: Vec<ExternalSource> = Vec::new();
    let mut i: usize = 0;
    while i < sources.len()
        invariant
            i <= sources.len(),
            copy.len() == i,
            forall|k: int| 0 <= k < i ==> copy[k]@ == sources[k]@,
        decreases sources.len() - i,
    {
        copy.push(sources[i].clone());
        i += 1;
    }
    proof {
        assert(sources_view(copy@) =~= sources_view(sources@));
    }
    copy
}

/// The texts of a list of strings, in order.
pub open spec fn texts_view(texts: Seq<String>) -> Seq<Seq<char>> {
    texts.map_values(|text: String| text@)
}

/// Copies a list of strings.
pub fn clone_texts(texts: &Vec<String>) -> (copy: Vec<String>)
    ensures
        texts_view(copy@) == texts_view(texts@),
{
    let mut copy: Vec<String> = Vec::new();
    let mut i: usize = 0;
    while i < texts.len()
        invariant
            i <= texts.len(),
            copy.len() == i,
            forall|k: int| 0 <= k < i ==> copy[k]@ == texts[k]@,
        decreases texts.len() - i,
    {
        copy.push(texts[i].clone());
        i += 1;
    }
    proof {
        assert(texts_view(copy@) =~= texts_view(texts@));
    }
    copy
}

/// Everything the synchroniser is configured with.
#[derive(Debug, PartialEq)]
pub struct Config {
    pub external_sources: Vec<ExternalSource>,
    pub destination_file_path: String,
    pub source_file_paths: Vec<String>,
    pub temp_storage_path: String,
    pub ttl: u64,
    pub call_frequency_in_minutes: u64,
    pub ca_cert_base64: String,
    pub log_level: String,
}

/// The mathematical value of a [`Config`].
pub struct ConfigView {
    pub external_sources: Seq<ExternalSourceView>,
    pub destination_file_path: Seq<char>,
    pub source_file_paths: Seq<Seq<char>>,
    pub temp_storage_path: Seq<char>,
    pub ttl: u64,
    pub call_frequency_in_minutes: u64,
    pub ca_cert_base64: Seq<char>,
    pub log_level: Seq<char>,
}

impl View for Config {
    type V = ConfigView;

    open spec fn view(&self) -> ConfigView {
        ConfigView {
            external_sources: sources_view(self.external_sources@),
            destination_file_path: self.destination_file_path@,
            source_file_paths: texts_view(self.source_file_paths@),
            temp_storage_path: self.temp_storage_path@,
            ttl: self.ttl,
            call_frequency_in_minutes: self.call_frequency_in_minutes,
            ca_cert_base64: self.ca_cert_base64@,
            log_level: self.log_level@,
        }
    }
}

impl ConfigView {
    /// The configuration that nothing was set in: no sources, no paths, a
    /// time-to-live of an hour and one cycle a minute.
    pub open spec fn defaults() -> ConfigView {
        ConfigView {
            external_sources: Seq::empty(),
            destination_file_path: Seq::empty(),
            source_file_paths: Seq::empty(),
            temp_storage_path: Seq::empty(),
            ttl: 3600,
            call_frequency_in_minutes: 1,
            ca_cert_base64: Seq::empty(),
            log_level: Seq::empty(),
        }
    }
}

impl Clone for Config {
    fn clone(&self) -> (copy: Config)
        ensures
            copy@ == self@,
    {
        Config {
            external_sources: clone_sources(&self.external_sources),
            destination_file_path: self.destination_file_path.clone(),
            source_file_paths: clone_texts(&self.source_file_paths),
            temp_storage_path: self.temp_storage_path.clone(),
            ttl: self.ttl,
            call_frequency_in_minutes: self.call_frequency_in_minutes,
            ca_cert_base64: self.ca_cert_base64.clone(),
            log_level: self.log_level.clone(),
        }
    }
}

impl Default for Config {
    fn default() -> (config: Config)
        ensures
            config@ == ConfigView::defaults(),
    {
        let config = Config {
            external_sources: Vec::new(),
            destination_file_path: String::new(),
            source_file_paths: Vec::new(),
            temp_storage_path: String::new(),
            ttl: 3600,
            call_frequency_in_minutes: 1,
            ca_cert_base64: String::new(),
            log_level: String::new(),
        };
        proof {
            assert(sources_view(config.external_sources@) =~= Seq::empty());
            assert(texts_view(config.source_file_paths@) =~= Seq::empty());
        }
        config
    }
}

/// A fault in the configuration. It is fatal: the synchroniser does not run a
/// broken configuration.
#[derive(Debug, Clone, Copy, PartialEq, Eq)]
pub enum ConfigError {
    /// The configured CA certificate is not valid base64.
    UndecodableTrustAnchor,
}

/// What the `STANDARD` engine of the `base64` crate decodes `encoded` to, and
/// `None` where it refuses the text. Which bytes these are is left to that
/// crate: the library only hands them on.
pub uninterp spec fn standard_base64_decoding(encoded: Seq<char>) -> Option<Seq<u8>>;

/// The error of the `base64` crate's decoder. Nothing is read from it.
#[verifier::external_type_specification]
#[verifier::external_body]
pub struct ExDecodeError(base64::DecodeError);

/// Calls `Engine::decode` of the `base64` crate on its `STANDARD` engine.
///
/// Not proved, but taken from that crate: what comes back depends on the text
/// alone, so that it can be given the name [`standard_base64_decoding`]; the
/// call returns the decoded bytes or an error, and does not panic.
#[verifier::external_body]
fn decode_standard_base64(encoded: &str) -> (decoded: Result<Vec<u8>, base64::DecodeError>)
    ensures
        match decoded {
            Ok(bytes) => standard_base64_decoding(encoded@) == Some(bytes@),
            Err(_) => standard_base64_decoding(encoded@) is None,
        },
{
    base64::Engine::decode(&base64::engine::general_purpose::STANDARD, encoded)
}

/// Decodes the CA certificate that every source is fetched with.
///
/// An undecodable certificate is a fault of the configuration, not of any one
/// source.
pub fn decode_trust_anchor(ca_cert_base64: &str) -> (anchor: Result<Vec<u8>, ConfigError>)
    ensures
        match anchor {
            Ok(bytes) => standard_base64_decoding(ca_cert_base64@) == Some(bytes@),
            Err(error) => {
                &&& standard_base64_decoding(ca_cert_base64@) is None
                &&& error == ConfigError::UndecodableTrustAnchor
            },
        },
{
    match decode_standard_base64(ca_cert_base64) {
        Ok(bytes) => Ok(bytes),
        Err(_) => Err(ConfigError::UndecodableTrustAnchor),
    }
}

} // verus!
