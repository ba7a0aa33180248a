use voxel_q3::console::{Accessor, Console, Functor, Mutator};

struct Speedometer;

impl Accessor for Speedometer {
    fn access(&self, _name: &str) -> String {
        "42".to_string()
    }
}

struct Gate {
    open: bool,
}

impl Mutator for Gate {
    fn mutate(&mut self, _name: &str, val: &str) -> Option<String> {
        if val == "on" || val == "off" {
            self.open = val == "on";
            None
        } else {
            Some("expected on or off".to_string())
        }
    }
}

struct Echo;

impl Functor for Echo {
    fn call(&mut self, _name: &str, params: &str) -> (bool, String) {
        (true, params.to_string())
    }
}

fn fresh() -> Console<Speedometer, Gate, Echo> {
    Console::new()
}

#[test]
fn new_console_has_welcome_text_and_prompt() {
    let c = fresh();
    assert_eq!(c.body, "Welcome to Q3\nVersion: 1.0");
    assert_eq!(c.prefix, "> ");
    assert_eq!(c.input, "");
}

#[test]
fn builtin_version_property_is_readable() {
    let mut c = fresh();
    let (ok, msg) = c.run_function("get q3.version".to_string());
    assert!(ok);
    assert_eq!(msg, "q3.version = 1.0");
}

#[test]
fn unknown_function_reports_error() {
    let mut c = fresh();
    let (ok, msg) = c.run_function("frobnicate now".to_string());
    assert!(!ok);
    assert_eq!(msg, "\\\\2Error: \\\\1Invalid function 'frobnicate'");
}

#[test]
fn unknown_property_reports_error() {
    let mut c = fresh();
    let (ok, msg) = c.run_function("get map.wireframe".to_string());
    assert!(!ok);
    assert_eq!(msg, "\\\\2Error: \\\\1Invalid property 'map.wireframe'");
}

#[test]
fn registered_functor_receives_trimmed_arguments() {
    let mut c = fresh();
    c.add_function("echo".to_string(), Echo);
    let (ok, msg) = c.run_function("  echo hello world  ".to_string());
    assert!(ok);
    assert_eq!(msg, "hello world");
}

#[test]
fn registered_accessor_answers_get() {
    let mut c = fresh();
    c.add_accessor("player.speed", Speedometer);
    let (ok, msg) = c.run_function("get player.speed".to_string());
    assert!(ok);
    assert_eq!(msg, "player.speed = 42");
}

#[test]
fn mutator_accepts_and_rejects_values() {
    let mut c = fresh();
    c.add_mutator("gate.open", Gate { open: false });
    let (ok, msg) = c.run_function("set gate.open on".to_string());
    assert!(ok);
    assert_eq!(msg, "\\\\1gate.open = on");
    let (ok2, msg2) = c.run_function("set gate.open sideways".to_string());
    assert!(!ok2);
    assert_eq!(msg2, "\\\\2Error: \\\\1expected on or off");
}

#[test]
fn missing_property_on_set_reports_error() {
    let mut c = fresh();
    let (ok, msg) = c.run_function("set nothing 1".to_string());
    assert!(!ok);
    assert_eq!(msg, "\\\\2Error: \\\\1The property 'nothing' does not exist.");
}

#[test]
fn logs_append_to_the_body() {
    let mut c = fresh();
    let before = c.body.clone();
    c.add_log("loaded map");
    assert_eq!(c.body, format!("{}\nloaded map", before));
    c.add_error_log("bad texture");
    assert_eq!(
        c.body,
        format!("{}\nloaded map\n\\2Error: \\1bad texture", before)
    );
}

#[test]
fn builtin_access_reports_version_or_error() {
    let c = fresh();
    assert_eq!(c.access("q3.version"), "1.0");
    assert_eq!(c.access("anything.else"), "ERROR");
}
