//! The folder-embedding derive's decisions: its configuration keys, the
//! path filters, how a walked path is named, and what the walk does with
//! each directory entry.

use crate::args::{codec_named, parse_codec, str_eq, CodecArg};
use crate::glob::glob_matches;
use crate::ids::{CodecId, CryptoId};
use vstd::prelude::*;
use vstd::string::{StrSliceExecFns, StringExecFns};

verus! {

/// Whether some pattern of `pats` matches `name`.
pub open spec fn any_matches(pats: Seq<String>, name: Seq<char>) -> bool {
    exists|i: int| 0 <= i < pats.len() && #[trigger] glob_matches(pats[i]@, name)
}

/// Whether a file at relative path `rel` is embedded: it matches no
/// pattern of `omit`, and either `keep` is empty or it matches one of its
/// patterns. `omit` takes priority.
pub open spec fn is_wanted(keep: Seq<String>, omit: Seq<String>, rel: Seq<char>) -> bool {
    !any_matches(omit, rel) && (keep.len() == 0 || any_matches(keep, rel))
}

/// Whether some pattern of `pats` matches `name`.
pub fn matches_any(pats: &Vec<String>, name: &str) -> (r: bool)
    requires
        name@.len() < usize::MAX,
    ensures
        r == any_matches(pats@, name@),
{
    let mut i: usize = 0;
    while i < pats.len()
        invariant
            i <= pats@.len(),
            name@.len() < usize::MAX,
            forall|j: int| 0 <= j < i ==> !#[trigger] glob_matches(pats@[j]@, name@),
        decreases pats@.len() - i,
    {
        if crate::glob::matches(pats[i].as_str(), name) {
            assert(glob_matches(pats@[i as int]@, name@));
            return true;
        }
        i = i + 1;
    }
    false
}

/// Applies the `keep` and `omit` filters to a relative path.
pub fn wanted(keep: &Vec<String>, omit: &Vec<String>, rel: &str) -> (r: bool)
    requires
        rel@.len() < usize::MAX,
    ensures
        r == is_wanted(keep@, omit@, rel@),
{
    if matches_any(omit, rel) {
        return false;
    }
    if keep.len() == 0 {
        return true;
    }
    matches_any(keep, rel)
}

/// `s` without its trailing `/` characters.
pub open spec fn trim_slashes(s: Seq<char>) -> Seq<char>
    decreases s.len(),
{
    if s.len() > 0 && s.last() == '/' {
        trim_slashes(s.drop_last())
    } else {
        s
    }
}

/// How a path under the embedded folder is named in diagnostics: the folder
/// as the user wrote it (without trailing slashes), a `/`, and the path
/// relative to it.
pub fn shown_child(folder: &str, rel: &str) -> (r: String)
    ensures
        r@ == trim_slashes(folder@) + seq!['/'] + rel@,
{
    let cs = crate::glob::chars_of(folder);
    let mut k: usize = cs.len();
    proof {
        assert(folder@.subrange(0, k as int) =~= folder@);
    }
    while k > 0 && cs[k - 1] == '/'
        invariant
            k <= cs@.len(),
            cs@ == folder@,
            trim_slashes(folder@.subrange(0, k as int)) == trim_slashes(folder@),
        decreases k,
    {
        proof {
            assert(folder@.subrange(0, k as int).drop_last() =~= folder@.subrange(0, k - 1));
        }
        k = k - 1;
    }
    proof {
        let t = folder@.subrange(0, k as int);
        assert(trim_slashes(t) == t);
        reveal_strlit("/");
    }
    let mut s = String::from_str(folder.substring_char(0, k));
    s.append("/");
    s.append(rel);
    s
}

/// A configuration key of the derive.
#[derive(Debug, Clone, Copy, PartialEq, Eq, Structural)]
pub enum ConfigKey {
    /// `folder = "..."`: the directory to embed.
    Folder,
    /// `codec = "..."`.
    Codec,
    /// `cipher = "..."`.
    Cipher,
    /// A pattern a file must match one of (repeatable).
    Keep,
    /// A pattern that leaves a file out (repeatable).
    Omit,
    /// The bare `encrypt` flag.
    Encrypt,
    /// The bare `dev` flag.
    Dev,
    /// The bare `follow_links` flag.
    FollowLinks,
}

/// Whether a key is written `key = "value"` rather than as a bare flag.
pub open spec fn takes_value(key: ConfigKey) -> bool {
    match key {
        ConfigKey::Folder | ConfigKey::Codec | ConfigKey::Cipher | ConfigKey::Keep
        | ConfigKey::Omit => true,
        _ => false,
    }
}

/// Whether a key is written `key = "value"` rather than as a bare flag.
pub fn key_takes_value(key: ConfigKey) -> (r: bool)
    ensures
        r == takes_value(key),
{
    match key {
        ConfigKey::Folder | ConfigKey::Codec | ConfigKey::Cipher | ConfigKey::Keep
        | ConfigKey::Omit => true,
        _ => false,
    }
}

/// Why a derive configuration was refused.
#[derive(Debug, Clone, Copy, PartialEq, Eq, Structural)]
pub enum ConfigError {
    /// A key that names one value was given a second time.
    GivenTwice,
    /// `codec = ...` names no codec.
    UnknownCodec,
    /// `cipher = ...` names no cipher.
    UnknownCipher,
    /// A value was given to a flag, or none to a key that takes one.
    WrongForm,
    /// No `folder = ...` was given.
    MissingFolder,
}

/// The derive's configuration as its keys are read.
pub struct EmbedConfig {
    /// The folder to embed, relative to the crate's manifest directory.
    pub folder: Option<String>,
    /// The codec argument for every file.
    pub codec: Option<CodecArg>,
    /// The cipher `encrypt` seals with.
    pub cipher: Option<CryptoId>,
    /// Whether every file is sealed under one build-time key.
    pub encrypt: bool,
    /// Whether debug builds read files live from disk.
    pub dev: bool,
    /// Whether symbolic links inside the folder are followed.
    pub follow_links: bool,
    /// Patterns a file must match one of, if any are given.
    pub keep: Vec<String>,
    /// Patterns that leave a file out.
    pub omit: Vec<String>,
}

/// The cipher a `cipher = ...` value names.
pub open spec fn cipher_named(name: Seq<char>) -> Option<CryptoId> {
    if name == "chacha"@ {
        Some(CryptoId::ChaCha20Poly1305)
    } else if name == "aes"@ {
        Some(CryptoId::Aes256Gcm)
    } else {
        None
    }
}

/// The settings, once every key is read.
pub struct EmbedSettings {
    /// The folder to embed.
    pub folder: String,
    /// The codec argument for every file: `Deflate` unless given.
    pub codec: CodecArg,
    /// The cipher `encrypt` seals with: ChaCha20-Poly1305 unless given.
    pub cipher: CryptoId,
    /// Whether every file is sealed.
    pub encrypt: bool,
    /// Whether debug builds read files live from disk.
    pub dev: bool,
    /// Whether symbolic links are followed.
    pub follow_links: bool,
    /// Patterns a file must match one of, if any are given.
    pub keep: Vec<String>,
    /// Patterns that leave a file out.
    pub omit: Vec<String>,
}

impl EmbedConfig {
    /// A configuration with no key read yet.
    pub fn new() -> (r: EmbedConfig)
        ensures
            r.folder is None,
            r.codec is None,
            r.cipher is None,
            !r.encrypt && !r.dev && !r.follow_links,
            r.keep@.len() == 0,
            r.omit@.len() == 0,
    {
        EmbedConfig {
            folder: None,
            codec: None,
            cipher: None,
            encrypt: false,
            dev: false,
            follow_links: false,
            keep: Vec::new(),
            omit: Vec::new(),
        }
    }

    /// Reads a `key = "value"` pair. The pattern keys repeat; every other
    /// key names one value, and a second one is refused rather than
    /// silently replacing the first.
    pub fn set_value(&mut self, key: ConfigKey, value: &str) -> (r: Result<(), ConfigError>)
        ensures
            final(self).encrypt == old(self).encrypt,
            final(self).dev == old(self).dev,
            final(self).follow_links == old(self).follow_links,
            key != ConfigKey::Folder || r is Err ==> final(self).folder == old(self).folder,
            key != ConfigKey::Codec || r is Err ==> final(self).codec == old(self).codec,
            key != ConfigKey::Cipher || r is Err ==> final(self).cipher == old(self).cipher,
            key != ConfigKey::Keep ==> final(self).keep@ == old(self).keep@,
            key != ConfigKey::Omit ==> final(self).omit@ == old(self).omit@,
            key == ConfigKey::Keep ==> final(self).keep@.drop_last() == old(self).keep@,
            key == ConfigKey::Omit ==> final(self).omit@.drop_last() == old(self).omit@,
            key == ConfigKey::Folder ==> if old(self).folder is Some {
                r == Err::<(), ConfigError>(ConfigError::GivenTwice)
            } else {
                r is Ok && (final(self).folder matches Some(f) && f@ == value@)
            },
            key == ConfigKey::Codec ==> if old(self).codec is Some {
                r == Err::<(), ConfigError>(ConfigError::GivenTwice)
            } else {
                match codec_named(value@) {
                    Some(c) => r is Ok && final(self).codec == Some(c),
                    None => r == Err::<(), ConfigError>(ConfigError::UnknownCodec),
                }
            },
            key == ConfigKey::Cipher ==> if old(self).cipher is Some {
                r == Err::<(), ConfigError>(ConfigError::GivenTwice)
            } else {
                match cipher_named(value@) {
                    Some(c) => r is Ok && final(self).cipher == Some(c),
                    None => r == Err::<(), ConfigError>(ConfigError::UnknownCipher),
                }
            },
            key == ConfigKey::Keep ==> r is Ok && final(self).keep@.len() == old(self).keep@.len()
                + 1 && final(self).keep@.last()@ == value@,
            key == ConfigKey::Omit ==> r is Ok && final(self).omit@.len() == old(self).omit@.len()
                + 1 && final(self).omit@.last()@ == value@,
            !takes_value(key) ==> r == Err::<(), ConfigError>(ConfigError::WrongForm),
    {
        match key {
            ConfigKey::Folder => {
                if self.folder.is_some() {
                    return Err(ConfigError::GivenTwice);
                }
                self.folder = Some(String::from_str(value));
                Ok(())
            },
            ConfigKey::Codec => {
                if self.codec.is_some() {
                    return Err(ConfigError::GivenTwice);
                }
                match parse_codec(value) {
                    Some(c) => {
                        self.codec = Some(c);
                        Ok(())
                    },
                    None => Err(ConfigError::UnknownCodec),
                }
            },
            ConfigKey::Cipher => {
                if self.cipher.is_some() {
                    return Err(ConfigError::GivenTwice);
                }
                proof {
                    reveal_strlit("chacha");
                    reveal_strlit("aes");
                    assert("chacha"@.len() == 6 && "aes"@.len() == 3);
                }
                if str_eq(value, "chacha") {
                    self.cipher = Some(CryptoId::ChaCha20Poly1305);
                    Ok(())
                } else if str_eq(value, "aes") {
                    self.cipher = Some(CryptoId::Aes256Gcm);
                    Ok(())
                } else {
                    Err(ConfigError::UnknownCipher)
                }
            },
            ConfigKey::Keep => {
                self.keep.push(String::from_str(value));
                Ok(())
            },
            ConfigKey::Omit => {
                self.omit.push(String::from_str(value));
                Ok(())
            },
            _ => Err(ConfigError::WrongForm),
        }
    }

    /// Reads a bare flag; each may be given once.
    pub fn set_flag(&mut self, key: ConfigKey) -> (r: Result<(), ConfigError>)
        ensures
            final(self).folder == old(self).folder,
            final(self).codec == old(self).codec,
            final(self).cipher == old(self).cipher,
            final(self).keep@ == old(self).keep@,
            final(self).omit@ == old(self).omit@,
            key == ConfigKey::Encrypt ==> if old(self).encrypt {
                r == Err::<(), ConfigError>(ConfigError::GivenTwice)
            } else {
                r is Ok && final(self).encrypt && final(self).dev == old(self).dev
                    && final(self).follow_links == old(self).follow_links
            },
            key == ConfigKey::Dev ==> if old(self).dev {
                r == Err::<(), ConfigError>(ConfigError::GivenTwice)
            } else {
                r is Ok && final(self).dev && final(self).encrypt == old(self).encrypt
                    && final(self).follow_links == old(self).follow_links
            },
            key == ConfigKey::FollowLinks ==> if old(self).follow_links {
                r == Err::<(), ConfigError>(ConfigError::GivenTwice)
            } else {
                r is Ok && final(self).follow_links && final(self).encrypt == old(self).encrypt
                    && final(self).dev == old(self).dev
            },
            takes_value(key) ==> r == Err::<(), ConfigError>(ConfigError::WrongForm),
    {
        match key {
            ConfigKey::Encrypt => {
                if self.encrypt {
                    return Err(ConfigError::GivenTwice);
                }
                self.encrypt = true;
                Ok(())
            },
            ConfigKey::Dev => {
                if self.dev {
                    return Err(ConfigError::GivenTwice);
                }
                self.dev = true;
                Ok(())
            },
            ConfigKey::FollowLinks => {
                if self.follow_links {
                    return Err(ConfigError::GivenTwice);
                }
                self.follow_links = true;
                Ok(())
            },
            _ => Err(ConfigError::WrongForm),
        }
    }

    /// The settings, with the defaults filled in; the folder is required.
    pub fn finish(self) -> (r: Result<EmbedSettings, ConfigError>)
        ensures
            match self.folder {
                None => r == Err::<EmbedSettings, ConfigError>(ConfigError::MissingFolder),
                Some(f) => r matches Ok(s) && s.folder == f && s.codec == match self.codec {
                    Some(c) => c,
                    None => CodecArg::Fixed(CodecId::Deflate),
                } && s.cipher == match self.cipher {
                    Some(c) => c,
                    None => CryptoId::ChaCha20Poly1305,
                } && s.encrypt == self.encrypt && s.dev == self.dev && s.follow_links
                    == self.follow_links && s.keep@ == self.keep@ && s.omit@ == self.omit@,
            },
    {
        match self.folder {
            None => Err(ConfigError::MissingFolder),
            Some(folder) => {
                let codec = match self.codec {
                    Some(c) => c,
                    None => CodecArg::Fixed(CodecId::Deflate),
                };
                let cipher = match self.cipher {
                    Some(c) => c,
                    None => CryptoId::ChaCha20Poly1305,
                };
                Ok(
                    EmbedSettings {
                        folder,
                        codec,
                        cipher,
                        encrypt: self.encrypt,
                        dev: self.dev,
                        follow_links: self.follow_links,
                        keep: self.keep,
                        omit: self.omit,
                    },
                )
            },
        }
    }
}

/// What the folder walk does with one directory entry.
#[derive(Debug, Clone, Copy, PartialEq, Eq, Structural)]
pub enum WalkStep {
    /// Fail: a link, with links not followed. One pointing outside the
    /// folder would embed its target -- a key, a credential file.
    RefuseLink,
    /// Walk into the directory.
    Descend,
    /// Embed the file.
    Embed,
    /// Leave the file out: the filters do not want it.
    Skip,
}

/// Decides one entry of the folder walk from what the listing says of it.
pub fn walk_step(is_link: bool, is_dir: bool, follow_links: bool, wanted: bool) -> (r: WalkStep)
    ensures
        r == (if is_link && !follow_links {
            WalkStep::RefuseLink
        } else if is_dir {
            WalkStep::Descend
        } else if wanted {
            WalkStep::Embed
        } else {
            WalkStep::Skip
        }),
{
    if is_link && !follow_links {
        WalkStep::RefuseLink
    } else if is_dir {
        WalkStep::Descend
    } else if wanted {
        WalkStep::Embed
    } else {
        WalkStep::Skip
    }
}

} // verus!
