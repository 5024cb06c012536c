use std::collections::HashSet;

use mailr::codec::parse_document;
use mailr::config::{
    AskAnswers, Config, ConfigManager, Login, Mechanism, Relay, RelaySettings, SaveAction,
    SaveLocation, SaveOutcome, location_outcome, resolve_source,
};
use mailr::crypto::Cipher;
use mailr::errors::ConfigError;

fn answers(relay: Relay) -> AskAnswers {
    AskAnswers {
        username: String::from("user@example.com"),
        password: String::from("hunter2"),
        relay,
        custom_addr: String::from("mail.example.org"),
        custom_port: 2525,
        custom_tls: false,
        custom_authentication: vec![Mechanism::Login, Mechanism::Xoauth2],
        store_loc: vec![SaveLocation::Local],
    }
}

#[test]
fn encrypt_decrypt_round_trip() {
    let cipher = Cipher::new();
    let plain = "correct horse battery staple".as_bytes();
    let (ciphertext, nonce) = cipher.encrypt(plain);
    assert_eq!(nonce.len(), 12);
    assert_eq!(ciphertext.len(), plain.len() + 16);
    let decrypted = cipher.decrypt(&ciphertext, &nonce).unwrap();
    assert_eq!(decrypted, plain.to_vec());
}

#[test]
fn empty_plaintext_round_trip() {
    let cipher = Cipher::new();
    let (ciphertext, nonce) = cipher.encrypt("".as_bytes());
    assert_eq!(ciphertext.len(), 16);
    let decrypted = cipher.decrypt(&ciphertext, &nonce).unwrap();
    assert!(decrypted.is_empty());
}

#[test]
fn nonce_uniqueness_over_ten_thousand_calls() {
    let cipher = Cipher::new();
    let mut seen: HashSet<Vec<u8>> = HashSet::new();
    for _ in 0..10_000 {
        let (_, nonce) = cipher.encrypt("x".as_bytes());
        assert_eq!(nonce.len(), 12);
        seen.insert(nonce);
    }
    assert_eq!(seen.len(), 10_000);
}

#[test]
fn decrypt_is_deterministic_across_instances() {
    let c1 = Cipher::new();
    let c2 = Cipher::new();
    let (ciphertext, nonce) = c1.encrypt("pw".as_bytes());
    assert_eq!(
        c1.decrypt(&ciphertext, &nonce).unwrap(),
        c2.decrypt(&ciphertext, &nonce).unwrap()
    );
    let garbage = vec![0u8; 24];
    assert!(matches!(c1.decrypt(&garbage, &nonce), Err(ConfigError::AuthenticationFailure)));
    assert!(matches!(c2.decrypt(&garbage, &nonce), Err(ConfigError::AuthenticationFailure)));
}

#[test]
fn tamper_detection_every_bit_of_ciphertext() {
    let cipher = Cipher::new();
    let (ciphertext, nonce) = cipher.encrypt("secret-pw".as_bytes());
    for i in 0..ciphertext.len() {
        for bit in 0..8 {
            let mut corrupted = ciphertext.clone();
            corrupted[i] ^= 1 << bit;
            let r = cipher.decrypt(&corrupted, &nonce);
            assert!(matches!(r, Err(ConfigError::AuthenticationFailure)));
        }
    }
}

#[test]
fn tamper_detection_every_bit_of_nonce() {
    let cipher = Cipher::new();
    let (ciphertext, nonce) = cipher.encrypt("secret-pw".as_bytes());
    for i in 0..nonce.len() {
        for bit in 0..8 {
            let mut corrupted = nonce.clone();
            corrupted[i] ^= 1 << bit;
            let r = cipher.decrypt(&ciphertext, &corrupted);
            assert!(matches!(r, Err(ConfigError::AuthenticationFailure)));
        }
    }
}

#[test]
fn outlook_preset_values() {
    let s = Relay::Outlook.settings();
    assert_eq!(s.addr, "smtp.office365.com");
    assert_eq!(s.port, 587);
    assert!(s.tls);
    assert_eq!(s.authentication, vec![Mechanism::Login]);
}

#[test]
fn gmail_preset_values() {
    let s = Relay::GMail.settings();
    assert_eq!(s.addr, "smtp.gmail.com");
    assert_eq!(s.port, 587);
    assert!(s.tls);
    assert_eq!(s.authentication, vec![Mechanism::Login]);
}

#[test]
fn labels() {
    assert_eq!(Relay::Unset.label(), "none");
    assert_eq!(Relay::Outlook.label(), "outlook");
    assert_eq!(Relay::GMail.label(), "Gmail");
    assert_eq!(Relay::Custom.label(), "custom");
    assert_eq!(SaveLocation::Global.label(), "global");
    assert_eq!(SaveLocation::Local.label(), "local (will override global)");
    assert_eq!(ConfigManager::local_file_loc(), "./.mailr.toml");
}

#[test]
fn custom_relay_port_out_of_range_is_rejected() {
    let mut a = answers(Relay::Custom);
    a.custom_port = 70000;
    let r = ConfigManager::ask(a);
    assert!(matches!(r, Err(ConfigError::PortOutOfRange)));
}

#[test]
fn custom_relay_port_zero_is_rejected() {
    let mut a = answers(Relay::Custom);
    a.custom_port = 0;
    let r = ConfigManager::ask(a);
    assert!(matches!(r, Err(ConfigError::PortOutOfRange)));
}

#[test]
fn custom_relay_boundary_ports_are_accepted() {
    let mut a = answers(Relay::Custom);
    a.custom_port = 1;
    assert!(ConfigManager::ask(a).is_ok());
    let mut a = answers(Relay::Custom);
    a.custom_port = 65535;
    let m = ConfigManager::ask(a).unwrap();
    assert_eq!(m.config.relay_settings.port, 65535);
}

#[test]
fn custom_relay_empty_mechanisms_fall_back_to_plain() {
    let mut a = answers(Relay::Custom);
    a.custom_authentication = Vec::new();
    let m = ConfigManager::ask(a).unwrap();
    assert_eq!(m.config.relay_settings.authentication, vec![Mechanism::Plain]);
}

#[test]
fn ask_encrypts_and_drops_plaintext() {
    let m = ConfigManager::ask(answers(Relay::Outlook)).unwrap();
    assert_eq!(m.config.login.username, "user@example.com");
    assert_eq!(m.config.login.nonce.len(), 12);
    // ciphertext carries a 16-byte tag, so it is longer than the password
    assert_eq!(m.config.login.password.len(), "hunter2".len() + 16);
    assert_ne!(m.config.login.password, "hunter2".as_bytes().to_vec());
}

#[test]
fn document_has_exact_canonical_text() {
    let config = Config {
        login: Login {
            username: String::from("u@example.com"),
            password: vec![1, 2, 255],
            nonce: vec![0, 0, 0, 0, 0, 0, 0, 0, 0, 0, 0, 0],
        },
        relay_settings: RelaySettings {
            addr: String::from("smtp.example.com"),
            port: 587,
            tls: true,
            authentication: vec![Mechanism::Login],
        },
    };
    let doc = mailr::codec::to_document(&config);
    let expected = "[login]\nusername = \"u@example.com\"\npassword = [1, 2, 255]\nnonce = [0, 0, 0, 0, 0, 0, 0, 0, 0, 0, 0, 0]\n\n[relay]\naddr = \"smtp.example.com\"\nport = 587\ntls = true\nauthentication = [\"Login\"]\n";
    assert_eq!(doc, expected);
}

#[test]
fn document_escapes_quotes_and_backslashes() {
    let config = Config {
        login: Login {
            username: String::from("a\"b\\c"),
            password: vec![7],
            nonce: vec![9, 9, 9, 9, 9, 9, 9, 9, 9, 9, 9, 9],
        },
        relay_settings: RelaySettings {
            addr: String::from("smtp.example.com"),
            port: 25,
            tls: false,
            authentication: vec![Mechanism::Plain, Mechanism::Xoauth2],
        },
    };
    let doc = mailr::codec::to_document(&config);
    assert!(doc.contains("username = \"a\\\"b\\\\c\""));
    assert!(doc.contains("tls = false"));
    assert!(doc.contains("authentication = [\"Plain\", \"Xoauth2\"]"));
    let parsed = parse_document(&doc).unwrap();
    assert_eq!(parsed.login.username, "a\"b\\c");
    assert_eq!(
        parsed.relay_settings.authentication,
        vec![Mechanism::Plain, Mechanism::Xoauth2]
    );
}

#[test]
fn parse_inverts_serialization() {
    let m = ConfigManager::ask(answers(Relay::Custom)).unwrap();
    let doc = m.to_document();
    let parsed = parse_document(&doc).unwrap();
    assert_eq!(parsed.login.username, m.config.login.username);
    assert_eq!(parsed.login.password, m.config.login.password);
    assert_eq!(parsed.login.nonce, m.config.login.nonce);
    assert_eq!(parsed.relay_settings.addr, "mail.example.org");
    assert_eq!(parsed.relay_settings.port, 2525);
    assert!(!parsed.relay_settings.tls);
    assert_eq!(
        parsed.relay_settings.authentication,
        vec![Mechanism::Login, Mechanism::Xoauth2]
    );
}

#[test]
fn parser_is_strict() {
    assert!(parse_document("garbage").is_none());
    assert!(parse_document("").is_none());
    let m = ConfigManager::ask(answers(Relay::Outlook)).unwrap();
    let doc = m.to_document();
    assert!(parse_document(&doc).is_some());
    // trailing junk
    let mut with_junk = doc.clone();
    with_junk.push(' ');
    assert!(parse_document(&with_junk).is_none());
    // a non-canonical number (leading zero)
    let padded = doc.replace("port = 587", "port = 0587");
    assert!(parse_document(&padded).is_none());
    // a missing field
    let cut = doc.replace("tls = true\n", "");
    assert!(parse_document(&cut).is_none());
}

#[test]
fn load_round_trip_restores_credentials() {
    let m1 = ConfigManager::ask(answers(Relay::Outlook)).unwrap();
    let doc = m1.to_document();
    let m2 = ConfigManager::from_document(&doc, "./.mailr.toml").unwrap();
    let creds = m2.credentials();
    assert_eq!(creds.username, "user@example.com");
    assert_eq!(creds.password, "hunter2");
    assert_eq!(m2.username().as_str(), "user@example.com");
    assert_eq!(m2.relay_settings().addr, "smtp.office365.com");
}

#[test]
fn load_rejects_malformed_document() {
    let r = ConfigManager::from_document("not a config", "./broken.toml");
    match r {
        Err(ConfigError::MalformedConfig { path, .. }) => assert_eq!(path, "./broken.toml"),
        _ => panic!("expected MalformedConfig"),
    }
}

#[test]
fn load_rejects_wrong_nonce_length() {
    let config = Config {
        login: Login {
            username: String::from("u@example.com"),
            password: vec![1, 2, 3],
            nonce: vec![0, 0, 0],
        },
        relay_settings: RelaySettings {
            addr: String::from("smtp.example.com"),
            port: 587,
            tls: true,
            authentication: vec![Mechanism::Login],
        },
    };
    let doc = mailr::codec::to_document(&config);
    let r = ConfigManager::from_document(&doc, "./short-nonce.toml");
    assert!(matches!(r, Err(ConfigError::MalformedConfig { .. })));
}

#[test]
fn load_detects_tampered_ciphertext() {
    let m1 = ConfigManager::ask(answers(Relay::Outlook)).unwrap();
    let mut config = m1.config;
    config.login.password[0] ^= 1;
    let doc = mailr::codec::to_document(&config);
    let r = ConfigManager::from_document(&doc, "./.mailr.toml");
    assert!(matches!(r, Err(ConfigError::AuthenticationFailure)));
}

#[test]
fn precedence_local_wins() {
    // A local file is used exclusively, whatever the global state is.
    assert_eq!(resolve_source(true, true, true).unwrap(), SaveLocation::Local);
    assert_eq!(resolve_source(true, false, false).unwrap(), SaveLocation::Local);
    assert_eq!(resolve_source(false, true, true).unwrap(), SaveLocation::Global);
    assert!(matches!(
        resolve_source(false, false, false),
        Err(ConfigError::UnsupportedPlatform)
    ));
    assert!(matches!(
        resolve_source(false, true, false),
        Err(ConfigError::ConfigNotFound)
    ));
}

#[test]
fn precedence_reads_local_content() {
    let mut local_answers = answers(Relay::Outlook);
    local_answers.username = String::from("local@example.com");
    let mut global_answers = answers(Relay::Outlook);
    global_answers.username = String::from("global@example.com");
    let local_doc = ConfigManager::ask(local_answers).unwrap().to_document();
    let global_doc = ConfigManager::ask(global_answers).unwrap().to_document();
    // Both files exist; resolution picks the local one and only its bytes
    // are read.
    let source = resolve_source(true, true, true).unwrap();
    let chosen = match source {
        SaveLocation::Local => &local_doc,
        SaveLocation::Global => &global_doc,
    };
    let m = ConfigManager::from_document(chosen, "./.mailr.toml").unwrap();
    assert_eq!(m.username().as_str(), "local@example.com");
}

#[test]
fn overwrite_declined_is_skipped() {
    let m = ConfigManager::ask(answers(Relay::Outlook)).unwrap();
    // store_loc is {Local}; a local file exists and its overwrite was
    // declined: the plan skips it, and the untargeted global is left alone.
    let plan = m.save_plan(true, false, false, false);
    assert_eq!(plan.local, Some(SaveAction::Skip));
    assert_eq!(plan.global, None);
}

#[test]
fn save_plan_per_location() {
    let mut a = answers(Relay::Outlook);
    a.store_loc = vec![SaveLocation::Local, SaveLocation::Global];
    let m = ConfigManager::ask(a).unwrap();
    // fresh local file, existing global file whose overwrite was confirmed
    let plan = m.save_plan(false, false, true, true);
    assert_eq!(plan.local, Some(SaveAction::Write));
    assert_eq!(plan.global, Some(SaveAction::Write));
    // existing files, one confirmed, one declined: independent outcomes
    let plan = m.save_plan(true, true, true, false);
    assert_eq!(plan.local, Some(SaveAction::Write));
    assert_eq!(plan.global, Some(SaveAction::Skip));
    // an empty selection writes nowhere
    let mut a = answers(Relay::Outlook);
    a.store_loc = Vec::new();
    let m = ConfigManager::ask(a).unwrap();
    let plan = m.save_plan(false, false, false, false);
    assert_eq!(plan.local, None);
    assert_eq!(plan.global, None);
}

#[test]
fn per_location_outcomes() {
    assert_eq!(location_outcome(None, true), None);
    assert_eq!(location_outcome(None, false), None);
    assert_eq!(location_outcome(Some(SaveAction::Skip), true), Some(SaveOutcome::Declined));
    assert_eq!(location_outcome(Some(SaveAction::Write), true), Some(SaveOutcome::Written));
    assert_eq!(location_outcome(Some(SaveAction::Write), false), Some(SaveOutcome::Failed));
}
