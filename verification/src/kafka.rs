//! Authentication settings shared by the Kafka components.
use vstd::prelude::*;
use rdkafka::config::ClientConfig;
use crate::sources::kafka_client::{client_config_entries, client_config_set};

verus! {

/// SASL authentication settings.
#[derive(Debug, Clone)]
pub struct KafkaSaslConfig {
    pub enabled: Option<bool>,
    pub username: Option<String>,
    pub password: Option<String>,
    pub mechanism: Option<String>,
}

/// TLS settings: whether TLS is on, and the files and key passphrase it uses.
#[derive(Debug, Clone)]
pub struct KafkaTlsConfig {
    pub enabled: Option<bool>,
    pub ca_file: Option<String>,
    pub crt_file: Option<String>,
    pub key_file: Option<String>,
    pub key_pass: Option<String>,
}

/// Authentication settings of a Kafka client.
#[derive(Debug, Clone)]
pub struct KafkaAuthConfig {
    pub sasl: Option<KafkaSaslConfig>,
    pub tls: Option<KafkaTlsConfig>,
}

/// Inserts `key` with the value `value` when it is present.
pub open spec fn set_opt(m: Map<Seq<char>, Seq<char>>, key: Seq<char>, value: Option<String>) -> Map<
    Seq<char>,
    Seq<char>,
> {
    match value {
        Some(v) => m.insert(key, v@),
        None => m,
    }
}

impl KafkaAuthConfig {
    /// No SASL and no TLS.
    pub fn new() -> (r: KafkaAuthConfig)
        ensures
            r.sasl is None,
            r.tls is None,
    {
        KafkaAuthConfig { sasl: None, tls: None }
    }

    pub open spec fn sasl_enabled(&self) -> bool {
        match self.sasl {
            Some(s) => s.enabled == Some(true),
            None => false,
        }
    }

    pub open spec fn tls_enabled(&self) -> bool {
        match self.tls {
            Some(t) => t.enabled == Some(true),
            None => false,
        }
    }

    /// The security protocol the settings call for.
    pub open spec fn protocol(&self) -> Seq<char> {
        if self.sasl_enabled() {
            if self.tls_enabled() {
                "sasl_ssl"@
            } else {
                "sasl_plaintext"@
            }
        } else {
            if self.tls_enabled() {
                "ssl"@
            } else {
                "plaintext"@
            }
        }
    }

    /// The client settings after these authentication settings are applied to `m`.
    pub open spec fn applied(&self, m: Map<Seq<char>, Seq<char>>) -> Map<Seq<char>, Seq<char>> {
        let m1 = m.insert("security.protocol"@, self.protocol());
        let m2 = if self.sasl_enabled() {
            let s = self.sasl.unwrap();
            set_opt(
                set_opt(set_opt(m1, "sasl.username"@, s.username), "sasl.password"@, s.password),
                "sasl.mechanism"@,
                s.mechanism,
            )
        } else {
            m1
        };
        if self.tls_enabled() {
            let t = self.tls.unwrap();
            set_opt(
                set_opt(
                    set_opt(
                        set_opt(m2, "ssl.ca.location"@, t.ca_file),
                        "ssl.certificate.location"@,
                        t.crt_file,
                    ),
                    "ssl.key.location"@,
                    t.key_file,
                ),
                "ssl.key.password"@,
                t.key_pass,
            )
        } else {
            m2
        }
    }

    /// Sets the security protocol, and the SASL and TLS settings that are enabled, on `client`.
    pub fn apply(&self, client: &mut ClientConfig)
        ensures
            client_config_entries(*final(client)) == self.applied(
                client_config_entries(*old(client)),
            ),
    {
        let sasl_enabled = match &self.sasl {
            Some(s) => match s.enabled {
                Some(e) => e,
                None => false,
            },
            None => false,
        };
        let tls_enabled = match &self.tls {
            Some(t) => match t.enabled {
                Some(e) => e,
                None => false,
            },
            None => false,
        };
        let protocol = if sasl_enabled {
            if tls_enabled {
                "sasl_ssl"
            } else {
                "sasl_plaintext"
            }
        } else {
            if tls_enabled {
                "ssl"
            } else {
                "plaintext"
            }
        };
        client_config_set(client, "security.protocol", protocol);
        match &self.sasl {
            Some(sasl) => {
                if sasl_enabled {
                    set_if_present(client, "sasl.username", &sasl.username);
                    set_if_present(client, "sasl.password", &sasl.password);
                    set_if_present(client, "sasl.mechanism", &sasl.mechanism);
                }
            },
            None => {},
        }
        match &self.tls {
            Some(tls) => {
                if tls_enabled {
                    set_if_present(client, "ssl.ca.location", &tls.ca_file);
                    set_if_present(client, "ssl.certificate.location", &tls.crt_file);
                    set_if_present(client, "ssl.key.location", &tls.key_file);
                    set_if_present(client, "ssl.key.password", &tls.key_pass);
                }
            },
            None => {},
        }
    }
}

fn set_if_present(client: &mut ClientConfig, key: &str, value: &Option<String>)
    ensures
        client_config_entries(*final(client)) == set_opt(client_config_entries(*old(client)), key@, *value),
{
    match value {
        Some(v) => client_config_set(client, key, v.as_str()),
        None => {},
    }
}

} // verus!
