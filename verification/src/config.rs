use vstd::prelude::*;
use vstd::string::*;
use vstd::utf8::{decode_utf8, encode_utf8, valid_utf8};

use crate::codec::{doc_of, lemma_doc_of_injective, parse_document, to_document};
use crate::crypto::{Cipher, MAX_PLAINTEXT_LEN, enc_of, key_spec};
use crate::errors::ConfigError;

verus! {

/// The relay presets a user can pick from; `Custom` lets every field be
/// supplied directly.
#[derive(Clone, Copy, PartialEq, Eq, Structural, Debug)]
pub enum Relay {
    Unset,
    Outlook,
    GMail,
    Custom,
}

/// Where a config file may live: a working-directory-relative file, or a
/// fixed platform-specific global location.
#[derive(Clone, Copy, PartialEq, Eq, Structural, Debug)]
pub enum SaveLocation {
    Global,
    Local,
}

/// SMTP authentication mechanisms a relay may support, weakest first.
#[derive(Clone, Copy, PartialEq, Eq, Structural, Debug)]
pub enum Mechanism {
    Plain,
    Login,
    Xoauth2,
}

/// Settings of the SMTP relay used to send mail.
pub struct RelaySettings {
    pub addr: String,
    pub port: u16,
    pub tls: bool,
    pub authentication: Vec<Mechanism>,
}

/// Mathematical value of a [`RelaySettings`].
pub struct RelaySettingsV {
    pub addr: Seq<char>,
    pub port: u16,
    pub tls: bool,
    pub authentication: Seq<Mechanism>,
}

impl View for RelaySettings {
    type V = RelaySettingsV;

    open spec fn view(&self) -> RelaySettingsV {
        RelaySettingsV {
            addr: self.addr@,
            port: self.port,
            tls: self.tls,
            authentication: self.authentication@,
        }
    }
}

/// The settings each preset resolves to. `Unset` and `Custom` yield a
/// placeholder that callers replace.
pub open spec fn preset_settings(r: Relay) -> RelaySettingsV {
    match r {
        Relay::Outlook => RelaySettingsV {
            addr: "smtp.office365.com"@,
            port: 587,
            tls: true,
            authentication: seq![Mechanism::Login],
        },
        Relay::GMail => RelaySettingsV {
            addr: "smtp.gmail.com"@,
            port: 587,
            tls: true,
            authentication: seq![Mechanism::Login],
        },
        _ => RelaySettingsV {
            addr: "your-address-here"@,
            port: 1234,
            tls: true,
            authentication: Seq::<Mechanism>::empty(),
        },
    }
}

impl Relay {
    /// The default relay settings of this preset.
    pub fn settings(&self) -> (r: RelaySettings)
        ensures
            r@ == preset_settings(*self),
    {
        let r = match self {
            Relay::Outlook => RelaySettings {
                addr: String::from_str("smtp.office365.com"),
                port: 587,
                tls: true,
                authentication: vec![Mechanism::Login],
            },
            Relay::GMail => RelaySettings {
                addr: String::from_str("smtp.gmail.com"),
                port: 587,
                tls: true,
                authentication: vec![Mechanism::Login],
            },
            _ => RelaySettings {
                addr: String::from_str("your-address-here"),
                port: 1234,
                tls: true,
                authentication: Vec::new(),
            },
        };
        proof {
            assert(r@.authentication =~= preset_settings(*self).authentication);
        }
        r
    }

    /// Short human-readable name of the preset.
    pub fn label(&self) -> (r: String)
        ensures
            r@ == relay_label(*self),
    {
        match self {
            Relay::Unset => String::from_str("none"),
            Relay::Outlook => String::from_str("outlook"),
            Relay::GMail => String::from_str("Gmail"),
            Relay::Custom => String::from_str("custom"),
        }
    }
}

/// The label `Relay::label` returns.
pub open spec fn relay_label(r: Relay) -> Seq<char> {
    match r {
        Relay::Unset => "none"@,
        Relay::Outlook => "outlook"@,
        Relay::GMail => "Gmail"@,
        Relay::Custom => "custom"@,
    }
}

impl SaveLocation {
    /// Short human-readable name of the location.
    pub fn label(&self) -> (r: String)
        ensures
            r@ == location_label(*self),
    {
        match self {
            SaveLocation::Global => String::from_str("global"),
            SaveLocation::Local => String::from_str("local (will override global)"),
        }
    }
}

/// The label `SaveLocation::label` returns.
pub open spec fn location_label(l: SaveLocation) -> Seq<char> {
    match l {
        SaveLocation::Global => "global"@,
        SaveLocation::Local => "local (will override global)"@,
    }
}

/// The credential: username plus encrypted password and the nonce the
/// ciphertext was produced under. The ciphertext is meaningless without
/// its paired nonce.
pub struct Login {
    pub username: String,
    pub password: Vec<u8>,
    pub nonce: Vec<u8>,
}

/// Mathematical value of a [`Login`].
pub struct LoginV {
    pub username: Seq<char>,
    pub password: Seq<u8>,
    pub nonce: Seq<u8>,
}

impl View for Login {
    type V = LoginV;

    open spec fn view(&self) -> LoginV {
        LoginV {
            username: self.username@,
            password: self.password@,
            nonce: self.nonce@,
        }
    }
}

/// The full persisted unit, one-to-one with a config file.
pub struct Config {
    pub login: Login,
    pub relay_settings: RelaySettings,
}

/// Mathematical value of a [`Config`].
pub struct ConfigV {
    pub login: LoginV,
    pub relay_settings: RelaySettingsV,
}

impl View for Config {
    type V = ConfigV;

    open spec fn view(&self) -> ConfigV {
        ConfigV {
            login: self.login@,
            relay_settings: self.relay_settings@,
        }
    }
}

/// Structural soundness of a persisted config: a 96-bit nonce, a port in
/// the valid range, and at least one authentication mechanism.
pub open spec fn config_valid(c: ConfigV) -> bool {
    &&& c.login.nonce.len() == 12
    &&& c.relay_settings.port >= 1
    &&& c.relay_settings.authentication.len() >= 1
}

/// A character's UTF-8 encoding takes at most four bytes, so a string's
/// takes at most four bytes per character.
proof fn lemma_encode_utf8_len(s: Seq<char>)
    ensures
        encode_utf8(s).len() <= 4 * s.len(),
    decreases s.len(),
{
    if s.len() > 0 {
        lemma_encode_utf8_len(s.drop_first());
    }
}

/// Relies on `String::from_utf8`: builds the string whose UTF-8 encoding
/// the bytes are, and rejects bytes that are not valid UTF-8.
#[verifier::external_body]
fn string_from_utf8(bytes: Vec<u8>) -> (r: Option<String>)
    ensures
        r is Some <==> valid_utf8(bytes@),
        r is Some ==> r.unwrap()@ == decode_utf8(bytes@),
{
    String::from_utf8(bytes).ok()
}

fn contains_loc(v: &Vec<SaveLocation>, x: SaveLocation) -> (r: bool)
    ensures
        r == v@.contains(x),
{
    let mut k: usize = 0;
    while k < v.len()
        invariant
            0 <= k <= v@.len(),
            forall|j: int| 0 <= j < k ==> v@[j] != x,
        decreases v@.len() - k,
    {
        if v[k] == x {
            proof {
                assert(v@[k as int] == x);
            }
            return true;
        }
        k += 1;
    }
    proof {
        assert(!v@.contains(x));
    }
    false
}

/// Decide which location an existing config is read from. The local file
/// wins outright; only when no local file exists is the global location
/// consulted, and only on a platform that defines one.
pub fn resolve_source(local_exists: bool, global_path_known: bool, global_exists: bool) -> (r:
    Result<SaveLocation, ConfigError>)
    ensures
        local_exists ==> r is Ok && r->Ok_0 == SaveLocation::Local,
        !local_exists && !global_path_known ==> r is Err && r->Err_0 is UnsupportedPlatform,
        !local_exists && global_path_known && global_exists ==> r is Ok && r->Ok_0
            == SaveLocation::Global,
        !local_exists && global_path_known && !global_exists ==> r is Err && r->Err_0
            is ConfigNotFound,
{
    if local_exists {
        Ok(SaveLocation::Local)
    } else if !global_path_known {
        Err(ConfigError::UnsupportedPlatform)
    } else if global_exists {
        Ok(SaveLocation::Global)
    } else {
        Err(ConfigError::ConfigNotFound)
    }
}

/// What one save call decides for one location.
#[derive(Clone, Copy, PartialEq, Eq, Structural, Debug)]
pub enum SaveAction {
    Write,
    Skip,
}

/// Per-location decisions of one save call; `None` means the location was
/// not targeted. The locations are independent destinations, not one
/// atomic transaction.
pub struct SavePlan {
    pub local: Option<SaveAction>,
    pub global: Option<SaveAction>,
}

/// The decision for one location: an untargeted location is left alone; a
/// targeted one whose file exists is written only on confirmation.
pub open spec fn action_for(targeted: bool, exists: bool, confirmed: bool) -> Option<SaveAction> {
    if !targeted {
        None
    } else if exists && !confirmed {
        Some(SaveAction::Skip)
    } else {
        Some(SaveAction::Write)
    }
}

/// Overwrite safety: a targeted location whose file exists and whose
/// overwrite was declined is skipped, never written.
pub proof fn lemma_overwrite_safety(targeted: bool, exists: bool, confirmed: bool)
    requires
        targeted,
        exists,
        !confirmed,
    ensures
        action_for(targeted, exists, confirmed) == Some(SaveAction::Skip),
{
}

/// What one save call reports for one location. The locations are
/// independent: a failure at one never hides the other's outcome.
#[derive(Clone, Copy, PartialEq, Eq, Structural, Debug)]
pub enum SaveOutcome {
    Written,
    Declined,
    Failed,
}

/// Fold the write attempt's result into the location's reported outcome:
/// an untargeted location reports nothing, a declined overwrite reports
/// `Declined`, and an attempted write reports `Written` or `Failed` as
/// the file system answered.
pub fn location_outcome(action: Option<SaveAction>, write_ok: bool) -> (r: Option<SaveOutcome>)
    ensures
        action is None ==> r is None,
        action == Some(SaveAction::Skip) ==> r == Some(SaveOutcome::Declined),
        action == Some(SaveAction::Write) && write_ok ==> r == Some(SaveOutcome::Written),
        action == Some(SaveAction::Write) && !write_ok ==> r == Some(SaveOutcome::Failed),
{
    match action {
        None => None,
        Some(SaveAction::Skip) => Some(SaveOutcome::Declined),
        Some(SaveAction::Write) => if write_ok {
            Some(SaveOutcome::Written)
        } else {
            Some(SaveOutcome::Failed)
        },
    }
}

/// A username with its decrypted password, handed to the mail-sending
/// collaborator. The plaintext lives only in memory, for one run.
pub struct Credentials {
    pub username: String,
    pub password: String,
}

/// What the prompt-provider collaborator collects for the configuration
/// flow. The `custom_*` fields matter only when `relay` is `Custom`; the
/// port is taken wide so that out-of-range answers reach validation.
pub struct AskAnswers {
    pub username: String,
    pub password: String,
    pub relay: Relay,
    pub custom_addr: String,
    pub custom_port: u32,
    pub custom_tls: bool,
    pub custom_authentication: Vec<Mechanism>,
    pub store_loc: Vec<SaveLocation>,
}

/// The settings a custom relay gets: as answered, except that an empty
/// mechanism selection falls back to the weakest supported mechanism.
pub open spec fn custom_settings(
    addr: Seq<char>,
    port: u16,
    tls: bool,
    auth: Seq<Mechanism>,
) -> RelaySettingsV {
    RelaySettingsV {
        addr,
        port,
        tls,
        authentication: if auth.len() == 0 {
            seq![Mechanism::Plain]
        } else {
            auth
        },
    }
}

/// Orchestrates the cipher and the persisted document: builds a config
/// from prompt answers, loads one from a document, plans saves, and hands
/// out credentials.
pub struct ConfigManager {
    pub config: Config,
    password_str: Option<String>,
    store_loc: Vec<SaveLocation>,
}

/// Mathematical value of a [`ConfigManager`].
pub struct ConfigManagerV {
    pub config: ConfigV,
    pub password_str: Option<Seq<char>>,
    pub store_loc: Seq<SaveLocation>,
}

impl View for ConfigManager {
    type V = ConfigManagerV;

    closed spec fn view(&self) -> ConfigManagerV {
        ConfigManagerV {
            config: self.config@,
            password_str: match self.password_str {
                Option::Some(p) => Option::Some(p@),
                Option::None => Option::None,
            },
            store_loc: self.store_loc@,
        }
    }
}

impl ConfigManager {
    /// The working-directory-relative config path.
    pub fn local_file_loc() -> (r: String)
        ensures
            r@ == "./.mailr.toml"@,
    {
        String::from_str("./.mailr.toml")
    }

    /// Whether a decrypted password is held (true after a successful
    /// load, false right after the ask flow, which drops the plaintext).
    pub open spec fn has_password(&self) -> bool {
        self@.password_str is Some
    }

    /// Build a config from prompt answers. The password is encrypted at
    /// once under a fresh random nonce and the plaintext is not kept. A
    /// custom relay's port is validated to 1..=65535 before anything can
    /// be persisted; a custom relay with no mechanism selected falls back
    /// to `Plain`. The password length cap keeps encryption infallible
    /// (four bytes per character stays far below the AES-GCM limit); it
    /// is not demanded on answers that are rejected for their port.
    pub fn ask(answers: AskAnswers) -> (r: Result<ConfigManager, ConfigError>)
        requires
            answers.relay != Relay::Unset,
            answers.relay == Relay::Custom && !(1 <= answers.custom_port <= 65535) || 4
                * answers.password@.len() <= MAX_PLAINTEXT_LEN,
        ensures
            r is Err <==> answers.relay == Relay::Custom && !(1 <= answers.custom_port
                <= 65535),
            r is Err ==> r->Err_0 is PortOutOfRange,
            r is Ok ==> ({
                let m = r->Ok_0@;
                &&& m.config.login.username == answers.username@
                &&& m.config.login.nonce.len() == 12
                &&& m.config.login.password == enc_of(
                    key_spec(),
                    m.config.login.nonce,
                    encode_utf8(answers.password@),
                )
                &&& m.password_str is None
                &&& m.store_loc == answers.store_loc@
                &&& m.config.relay_settings == (if answers.relay == Relay::Custom {
                    custom_settings(
                        answers.custom_addr@,
                        answers.custom_port as u16,
                        answers.custom_tls,
                        answers.custom_authentication@,
                    )
                } else {
                    preset_settings(answers.relay)
                })
                &&& config_valid(m.config)
            }),
    {
        let AskAnswers {
            username,
            password,
            relay,
            custom_addr,
            custom_port,
            custom_tls,
            custom_authentication,
            store_loc,
        } = answers;
        let relay_settings: RelaySettings = if relay == Relay::Custom {
            if !(1 <= custom_port && custom_port <= 65535) {
                return Err(ConfigError::PortOutOfRange);
            }
            let mut authentication = custom_authentication;
            if authentication.len() == 0 {
                authentication.push(Mechanism::Plain);
                proof {
                    assert(authentication@ =~= seq![Mechanism::Plain]);
                }
            }
            RelaySettings {
                addr: custom_addr,
                port: custom_port as u16,
                tls: custom_tls,
                authentication,
            }
        } else {
            relay.settings()
        };
        let cipher = Cipher::new();
        proof {
            lemma_encode_utf8_len(password@);
        }
        let (ciphertext, nonce) = cipher.encrypt(password.as_str().as_bytes());
        let manager = ConfigManager {
            config: Config {
                login: Login { username, password: ciphertext, nonce },
                relay_settings,
            },
            password_str: None,
            store_loc,
        };
        Ok(manager)
    }

    /// Load a config from the document read at `path`: parse it, decrypt
    /// the stored password with the stored nonce, and keep the plaintext
    /// in memory for this run. A text that is not the canonical document
    /// of a valid config is `MalformedConfig`; a failed tag verification
    /// is `AuthenticationFailure`, surfaced unchanged; decrypted bytes
    /// that are not valid text are `MalformedConfig` as well.
    pub fn from_document(doc: &str, path: &str) -> (r: Result<ConfigManager, ConfigError>)
        ensures
            r is Ok ==> ({
                let m = r->Ok_0@;
                &&& doc@ == doc_of(m.config)
                &&& config_valid(m.config)
                &&& m.password_str is Some
                &&& m.config.login.password == enc_of(
                    key_spec(),
                    m.config.login.nonce,
                    encode_utf8(m.password_str.unwrap()),
                )
                &&& m.store_loc == Seq::<SaveLocation>::empty()
                &&& forall|p: Seq<char>|
                    m.config.login.password == enc_of(
                        key_spec(),
                        m.config.login.nonce,
                        #[trigger] encode_utf8(p),
                    ) ==> m.password_str == Some(p)
            }),
            forall|c: ConfigV, p: Seq<char>|
                #![trigger doc_of(c), encode_utf8(p)]
                config_valid(c) && doc@ == doc_of(c) && c.login.password == enc_of(
                    key_spec(),
                    c.login.nonce,
                    encode_utf8(p),
                ) ==> r is Ok && r->Ok_0@.config == c && r->Ok_0@.password_str == Some(p),
            r is Err ==> (r->Err_0 is MalformedConfig || r->Err_0 is AuthenticationFailure),
            r is Err && r->Err_0 is MalformedConfig ==> r->Err_0->MalformedConfig_path@ == path@,
            (forall|c: ConfigV| config_valid(c) ==> doc@ != doc_of(c)) ==> r is Err && r->Err_0
                is MalformedConfig,
            forall|c: ConfigV|
                config_valid(c) && doc@ == #[trigger] doc_of(c) && (forall|q: Seq<u8>|
                    c.login.password != #[trigger] enc_of(key_spec(), c.login.nonce, q)) ==> r
                    is Err && r->Err_0 is AuthenticationFailure,
    {
        let parsed = parse_document(doc);
        match parsed {
            None => Err(
                ConfigError::MalformedConfig {
                    path: String::from_str(path),
                    cause: String::from_str("not a well-formed config document"),
                },
            ),
            Some(config) => {
                let cipher = Cipher::new();
                let dec = cipher.decrypt(
                    config.login.password.as_slice(),
                    config.login.nonce.as_slice(),
                );
                match dec {
                    Err(e) => {
                        proof {
                            assert forall|c: ConfigV, p: Seq<char>|
                                #![trigger doc_of(c), encode_utf8(p)]
                                !(config_valid(c) && doc@ == doc_of(c) && c.login.password
                                    == enc_of(key_spec(), c.login.nonce, encode_utf8(p))) by {
                                if config_valid(c) && doc@ == doc_of(c) && c.login.password
                                    == enc_of(key_spec(), c.login.nonce, encode_utf8(p)) {
                                    lemma_doc_of_injective(c, config@);
                                }
                            }
                        }
                        Err(e)
                    },
                    Ok(bytes) => {
                        let ghost bytes_view = bytes@;
                        let utf = string_from_utf8(bytes);
                        match utf {
                            None => {
                                proof {
                                    assert forall|c: ConfigV, p: Seq<char>|
                                        #![trigger doc_of(c), encode_utf8(p)]
                                        !(config_valid(c) && doc@ == doc_of(c) && c.login.password
                                            == enc_of(key_spec(), c.login.nonce, encode_utf8(p))) by {
                                        if config_valid(c) && doc@ == doc_of(c) && c.login.password
                                            == enc_of(key_spec(), c.login.nonce, encode_utf8(p)) {
                                            lemma_doc_of_injective(c, config@);
                                            vstd::utf8::encode_utf8_valid_utf8(p);
                                        }
                                    }
                                    assert forall|c: ConfigV|
                                        !(config_valid(c) && doc@ == #[trigger] doc_of(c) && (
                                        forall|q: Seq<u8>|
                                            c.login.password != #[trigger] enc_of(
                                                key_spec(),
                                                c.login.nonce,
                                                q,
                                            ))) by {
                                        if config_valid(c) && doc@ == doc_of(c) {
                                            lemma_doc_of_injective(c, config@);
                                            assert(c.login.password == enc_of(
                                                key_spec(),
                                                c.login.nonce,
                                                bytes_view,
                                            ));
                                        }
                                    }
                                }
                                Err(
                                    ConfigError::MalformedConfig {
                                        path: String::from_str(path),
                                        cause: String::from_str("stored password is not valid text"),
                                    },
                                )
                            },
                            Some(pw) => {
                                let manager = ConfigManager {
                                    config,
                                    password_str: Some(pw),
                                    store_loc: Vec::new(),
                                };
                                proof {
                                    let m = manager@;
                                    vstd::utf8::decode_utf8_encode_utf8(bytes_view);
                                    assert(m.config.login.password == enc_of(
                                        key_spec(),
                                        m.config.login.nonce,
                                        encode_utf8(m.password_str.unwrap()),
                                    ));
                                    assert forall|p: Seq<char>|
                                        m.config.login.password == enc_of(
                                            key_spec(),
                                            m.config.login.nonce,
                                            #[trigger] encode_utf8(p),
                                        ) implies m.password_str == Some(p) by {
                                        vstd::utf8::encode_utf8_decode_utf8(p);
                                    }
                                    assert forall|c: ConfigV, p: Seq<char>|
                                        #![trigger doc_of(c), encode_utf8(p)]
                                        config_valid(c) && doc@ == doc_of(c) && c.login.password
                                            == enc_of(key_spec(), c.login.nonce, encode_utf8(p))
                                        implies m.config == c && m.password_str == Some(p) by {
                                        lemma_doc_of_injective(c, config@);
                                        vstd::utf8::encode_utf8_decode_utf8(p);
                                    }
                                    assert forall|c: ConfigV|
                                        !(config_valid(c) && doc@ == #[trigger] doc_of(c) && (
                                        forall|q: Seq<u8>|
                                            c.login.password != #[trigger] enc_of(
                                                key_spec(),
                                                c.login.nonce,
                                                q,
                                            ))) by {
                                        if config_valid(c) && doc@ == doc_of(c) {
                                            lemma_doc_of_injective(c, config@);
                                            assert(c.login.password == enc_of(
                                                key_spec(),
                                                c.login.nonce,
                                                bytes_view,
                                            ));
                                        }
                                    }
                                }
                                Ok(manager)
                            },
                        }
                    },
                }
            },
        }
    }

    /// Decide, for each requested location independently, whether the
    /// serialized config is written there. An existing file is only
    /// overwritten when its overwrite was confirmed; declining skips that
    /// location alone and leaves its prior content untouched.
    pub fn save_plan(
        &self,
        local_exists: bool,
        local_confirmed: bool,
        global_exists: bool,
        global_confirmed: bool,
    ) -> (r: SavePlan)
        ensures
            r.local == action_for(
                self@.store_loc.contains(SaveLocation::Local),
                local_exists,
                local_confirmed,
            ),
            r.global == action_for(
                self@.store_loc.contains(SaveLocation::Global),
                global_exists,
                global_confirmed,
            ),
    {
        let target_local = contains_loc(&self.store_loc, SaveLocation::Local);
        let target_global = contains_loc(&self.store_loc, SaveLocation::Global);
        let local: Option<SaveAction> = if !target_local {
            None
        } else if local_exists && !local_confirmed {
            Some(SaveAction::Skip)
        } else {
            Some(SaveAction::Write)
        };
        let global: Option<SaveAction> = if !target_global {
            None
        } else if global_exists && !global_confirmed {
            Some(SaveAction::Skip)
        } else {
            Some(SaveAction::Write)
        };
        SavePlan { local, global }
    }

    /// The document text this config persists as.
    pub fn to_document(&self) -> (r: String)
        ensures
            r@ == doc_of(self@.config),
    {
        to_document(&self.config)
    }

    /// Clone username and decrypted password out of the active config.
    pub fn credentials(&self) -> (r: Credentials)
        requires
            self.has_password(),
        ensures
            r.username@ == self@.config.login.username,
            self@.password_str == Some(r.password@),
    {
        let password: String = match &self.password_str {
            Some(p) => p.clone(),
            None => vstd::pervasive::unreached(),
        };
        Credentials { username: self.config.login.username.clone(), password }
    }

    /// The configured username.
    pub fn username(&self) -> (r: &String)
        ensures
            r@ == self@.config.login.username,
    {
        &self.config.login.username
    }

    /// The configured relay settings.
    pub fn relay_settings(&self) -> (r: &RelaySettings)
        ensures
            r@ == self@.config.relay_settings,
    {
        &self.config.relay_settings
    }

    /// The save locations this config was asked to be stored at.
    pub fn store_locations(&self) -> (r: &Vec<SaveLocation>)
        ensures
            r@ == self@.store_loc,
    {
        &self.store_loc
    }

    /// The held config, as the contracts over the view speak of it.
    pub fn config(&self) -> (r: &Config)
        ensures
            r@ == self@.config,
    {
        &self.config
    }
}

} // verus!
