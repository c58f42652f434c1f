use oxdraw::codedown::CodedownStyle;
use oxdraw::escape_xml;
use oxdraw::files::get_template;
use oxdraw::session::{clear_session_cookie, create_session_cookie};

#[test]
fn xml_entities() {
    assert_eq!(escape_xml("a<b>&\"c'"), "a&lt;b&gt;&amp;&quot;c&apos;");
    assert_eq!(escape_xml(""), "");
    assert_eq!(escape_xml("plain"), "plain");
}

#[test]
fn templates_by_name() {
    assert!(get_template("flowchart").starts_with("graph TD\n    Start([Start])"));
    assert_eq!(get_template("graph"), get_template("flowchart"));
    assert!(get_template("sequence").starts_with("sequenceDiagram"));
    assert_eq!(get_template("unknown"), "graph TD\n    A[Start] --> B[Process]\n    B --> C[End]");
}

#[test]
fn session_cookies() {
    assert_eq!(
        create_session_cookie("abc"),
        "oxdraw_session=abc; Path=/; HttpOnly; SameSite=Lax; Max-Age=2592000"
    );
    assert_eq!(
        clear_session_cookie(),
        "oxdraw_session=; Path=/; HttpOnly; SameSite=Lax; Max-Age=0"
    );
}

#[test]
fn codedown_styles() {
    assert_eq!(CodedownStyle::from_str("Tutorial"), Some(CodedownStyle::Tutorial));
    assert_eq!(CodedownStyle::from_str("API"), Some(CodedownStyle::Api));
    assert_eq!(CodedownStyle::from_str("architecture"), Some(CodedownStyle::Architecture));
    assert_eq!(CodedownStyle::from_str("essay"), None);
}
