use vector::conditions::{AnyCondition, Condition, ConditionConfig};
use vector::event::{Event, LogEvent, LogValue};

/// A condition that holds of events whose `message` equals a given text.
#[derive(Debug, Clone)]
struct MessageIs {
    expected: String,
}

impl Condition for MessageIs {
    fn holds(&self, e: &Event) -> bool {
        self.check(e)
    }

    fn check(&self, e: &Event) -> bool {
        match e.as_log().get("message") {
            Some(LogValue::Bytes(b)) => b.as_slice() == self.expected.as_bytes(),
            _ => false,
        }
    }
}

/// A condition that explains its failures itself.
#[derive(Debug, Clone)]
struct Never;

impl Condition for Never {
    fn holds(&self, e: &Event) -> bool {
        self.check(e)
    }

    fn check(&self, _e: &Event) -> bool {
        false
    }

    fn check_with_context(&self, _e: &Event) -> Result<(), String> {
        Err("never holds".to_string())
    }
}

/// The configuration of `MessageIs`; as a remap program it accepts `.message == "<text>"`.
#[derive(Debug, Clone)]
struct RemapConfig {
    source: String,
}

impl ConditionConfig for RemapConfig {
    type Built = MessageIs;

    fn spec_build(&self) -> Result<MessageIs, String> {
        self.build()
    }

    fn spec_build_remap(source: &String) -> Result<MessageIs, String> {
        Self::build_remap(source)
    }

    fn build(&self) -> Result<MessageIs, String> {
        Self::build_remap(&self.source)
    }

    fn build_remap(source: &String) -> Result<MessageIs, String> {
        let prefix = ".message == \"";
        if source.starts_with(prefix) && source.ends_with('"') && source.len() > prefix.len() {
            Ok(MessageIs { expected: source[prefix.len()..source.len() - 1].to_string() })
        } else {
            Err(format!("cannot compile {:?}", source))
        }
    }
}

fn event(message: &str) -> Event {
    let mut log = LogEvent::new();
    log.insert("message", LogValue::Bytes(message.as_bytes().to_vec()));
    Event::Log(log)
}

/// Reads a condition the way a configuration file writes it: a plain string is a remap
/// program, a table is a configuration.
fn read_condition(value: &toml::Value) -> AnyCondition<RemapConfig> {
    match value {
        toml::Value::String(s) => AnyCondition::String(s.clone()),
        toml::Value::Table(t) => AnyCondition::Config(RemapConfig {
            source: t["source"].as_str().unwrap().to_string(),
        }),
        other => panic!("unexpected condition {:?}", other),
    }
}

#[test]
fn deserialize_anycondition_default() {
    let conf: toml::Value = toml::from_str(r#"condition = ".nork == false""#).unwrap();
    let condition = read_condition(&conf["condition"]);
    assert_eq!(r#"String(".nork == false")"#, format!("{:?}", condition))
}

#[test]
fn check_with_context_is_ok_when_the_condition_holds() {
    let c = MessageIs { expected: "hooray".to_string() };
    assert!(c.check(&event("hooray")));
    assert_eq!(c.check_with_context(&event("hooray")), Ok(()));
}

#[test]
fn check_with_context_reports_condition_failed() {
    let c = MessageIs { expected: "hooray".to_string() };
    assert!(!c.check(&event("boo")));
    assert_eq!(c.check_with_context(&event("boo")), Err("condition failed".to_string()));
}

#[test]
fn check_with_context_may_explain_itself() {
    assert_eq!(Never.check_with_context(&event("x")), Err("never holds".to_string()));
}

#[test]
fn string_condition_builds_as_remap_program() {
    let any: AnyCondition<RemapConfig> = AnyCondition::String(".message == \"hooray\"".to_string());
    let built = any.build().unwrap();
    assert_eq!(built.expected, "hooray");
    assert!(built.check(&event("hooray")));
    assert!(!built.check(&event("hooray!")));
}

#[test]
fn string_condition_that_does_not_compile_is_an_error() {
    let any: AnyCondition<RemapConfig> = AnyCondition::String(".nork == false".to_string());
    assert_eq!(any.build().unwrap_err(), "cannot compile \".nork == false\"");
}

#[test]
fn configured_condition_builds_itself() {
    let conf: toml::Value = toml::from_str(
        "[condition]\ntype = \"remap\"\nsource = '.message == \"nork\"'\n",
    )
    .unwrap();
    let any = read_condition(&conf["condition"]);
    assert!(matches!(any, AnyCondition::Config(_)));
    let built = any.build().unwrap();
    assert!(built.check(&event("nork")));
    assert!(!built.check(&event("norg")));
}
